//! The serializer: body, header and checksum trailer assembly.
//!
//! Outbound frames are built from a message-type code, the two
//! counterparty identifiers, a sequence number and a table of body
//! fields. Body fields are emitted in ascending tag order, so that the
//! same logical fields always yield byte-identical output. The
//! header's declared body length reproduces this codec's established
//! computation — it is derived from the lengths of the message-type
//! code, the two identifiers, the constant timestamp-format length and
//! the sequence-number field, plus the body's byte count — rather than
//! the standard body byte count alone; see the note on
//! [`body_len_value`]. Buffers grow as needed, so no fixed capacity
//! can overflow.

use vstd::prelude::*;
use vstd::utf8::encode_utf8;

use crate::checksum::{get_checksum, spec_checksum};
use crate::errors::int_str;
use crate::fields::{enc_field, enc_fields, fields_ok, no_soh, spec_extract, FieldMap};
use crate::num::{dec_str, digits_val, is_digit, is_digits, lemma_dec_str, lemma_dec_str_len,
    lemma_pad_str, pad_str, u128_to_string, u128_to_string_pad};

verus! {

/// The characters the sending-time field can hold: digits and the
/// punctuation of a calendar timestamp.
pub open spec fn ts_char(c: char) -> bool {
    is_digit(c) || c == '-' || c == ':' || c == '.' || c == '+'
}

/// A well-formed sending-time text: timestamp characters only, so in
/// particular no field separator and no `=`.
pub open spec fn ts_wf(ts: Seq<char>) -> bool {
    forall|i: int| 0 <= i < ts.len() ==> ts_char(#[trigger] ts[i])
}

/// Relies on chrono's `Utc::now` and `DateTime::format` with the
/// format string `%Y%m%d-%T%.3f` (year, month, day, a dash, the time
/// of day, and milliseconds): whatever instant the system clock
/// reports, the rendered text consists only of digits, `-`, `:`, `.`
/// and a possible `+` sign on far-future years.
#[verifier::external_body]
fn now_timestamp() -> (r: String)
    ensures
        ts_wf(r@),
{
    chrono::Utc::now().format("%Y%m%d-%T%.3f").to_string()
}

/// Relies on `String::push`: appends the given character to the end
/// of the string.
#[verifier::external_body]
fn push_char(s: &mut String, c: char)
    ensures
        final(s)@ == old(s)@.push(c),
{
    s.push(c);
}

/// Renders one character as a string.
pub fn char_to_string(c: char) -> (r: String)
    ensures
        r@ =~= seq![c],
{
    let mut s = String::new();
    push_char(&mut s, c);
    s
}

/// UTF-8 encoding distributes over concatenation.
pub proof fn lemma_encode_utf8_concat(a: Seq<char>, b: Seq<char>)
    ensures
        encode_utf8(a + b) == encode_utf8(a) + encode_utf8(b),
    decreases a.len(),
{
    if a.len() == 0 {
        assert(a + b =~= b);
        assert(encode_utf8(a) + encode_utf8(b) =~= encode_utf8(b));
    } else {
        assert((a + b)[0] == a[0]);
        assert((a + b).drop_first() =~= a.drop_first() + b);
        lemma_encode_utf8_concat(a.drop_first(), b);
        assert(vstd::utf8::encode_scalar(a[0] as u32) + (encode_utf8(a.drop_first())
            + encode_utf8(b)) =~= (vstd::utf8::encode_scalar(a[0] as u32) + encode_utf8(
            a.drop_first(),
        )) + encode_utf8(b));
    }
}

/// Header tags never serialized from the body table: protocol id,
/// body length, message type and sequence number.
pub open spec fn is_body_tag(t: int) -> bool {
    t != 8 && t != 9 && t != 35 && t != 34
}

/// The body fields of an entry table: everything but the header tags,
/// in table (ascending tag) order.
pub open spec fn body_fields(entries: Seq<(int, Seq<char>)>) -> Seq<(int, Seq<char>)> {
    entries.filter(|e: (int, Seq<char>)| is_body_tag(e.0))
}

/// Every tag of the table is non-negative, as the data model requires
/// of tags.
pub open spec fn tags_nonneg(entries: Seq<(int, Seq<char>)>) -> bool {
    forall|i: int| 0 <= i < entries.len() ==> (#[trigger] entries[i]).0 >= 0
}

/// The encoded body: each body field as `tag=value` plus separator.
pub open spec fn spec_body(entries: Seq<(int, Seq<char>)>) -> Seq<char> {
    enc_fields(body_fields(entries))
}

/// The declared body length. This reproduces the codec's established
/// computation: four bytes of framing plus content for each of the
/// message-type, sender, target, sending-time and sequence-number
/// fields — the sending time counted at its constant format length of
/// 21 and the sequence number at its padded length of 7 — plus the
/// body's byte count. It is not the standard frame's body byte count;
/// the two can disagree, and this codec documents and keeps its own
/// form rather than silently changing the wire output.
pub open spec fn body_len_value(
    mt: Seq<char>,
    snd: Seq<char>,
    tgt: Seq<char>,
    body_bytes: int,
) -> int {
    4 + encode_utf8(mt).len() + 4 + encode_utf8(snd).len() + 4 + encode_utf8(tgt).len() + 4 + 21
        + 4 + 7 + body_bytes
}

/// The fixed-order header: protocol id, declared body length, message
/// type, sending time, sender, target, and the sequence number padded
/// to seven digits.
pub open spec fn spec_head(
    mt: Seq<char>,
    snd: Seq<char>,
    tgt: Seq<char>,
    seqno: u32,
    ts: Seq<char>,
    body_bytes: int,
) -> Seq<char> {
    enc_field(8, "FIX4.2"@) + enc_field(9, dec_str(body_len_value(mt, snd, tgt, body_bytes)))
        + enc_field(35, mt) + enc_field(52, ts) + enc_field(49, snd) + enc_field(56, tgt)
        + enc_field(34, pad_str(seqno as int, 7))
}

/// A whole wire frame: header, body, and the checksum trailer holding
/// the three-digit zero-padded byte sum of header and body.
pub open spec fn spec_frame(
    mt: Seq<char>,
    snd: Seq<char>,
    tgt: Seq<char>,
    seqno: u32,
    entries: Seq<(int, Seq<char>)>,
    ts: Seq<char>,
) -> Seq<char> {
    let body = spec_body(entries);
    let head = spec_head(mt, snd, tgt, seqno, ts, encode_utf8(body).len() as int);
    head + body + enc_field(10, pad_str(spec_checksum(encode_utf8(head + body)), 3))
}

/// Filtering a sequence extended by one element keeps the filtered
/// prefix and appends the element exactly when it satisfies the
/// predicate.
proof fn lemma_filter_push(
    s: Seq<(int, Seq<char>)>,
    pred: spec_fn((int, Seq<char>)) -> bool,
    e: (int, Seq<char>),
)
    ensures
        s.push(e).filter(pred) == s.filter(pred) + (if pred(e) {
            seq![e]
        } else {
            Seq::<(int, Seq<char>)>::empty()
        }),
{
    reveal(Seq::filter);
    assert(s.push(e).drop_last() =~= s);
    assert(s.push(e).last() == e);
    if pred(e) {
        assert(s.filter(pred).push(e) =~= s.filter(pred) + seq![e]);
    } else {
        assert(s.filter(pred) =~= s.filter(pred) + Seq::<(int, Seq<char>)>::empty());
    }
}

/// Filtering keeps a sequence whole when every element satisfies the
/// predicate.
pub proof fn lemma_filter_all(s: Seq<(int, Seq<char>)>, pred: spec_fn((int, Seq<char>)) -> bool)
    requires
        forall|i: int| 0 <= i < s.len() ==> pred(#[trigger] s[i]),
    ensures
        s.filter(pred) == s,
    decreases s.len(),
{
    reveal(Seq::filter);
    if s.len() > 0 {
        assert forall|i: int| 0 <= i < s.drop_last().len() implies pred(
            #[trigger] s.drop_last()[i],
        ) by {
            assert(s.drop_last()[i] == s[i]);
        }
        lemma_filter_all(s.drop_last(), pred);
        assert(pred(s.last()));
        assert(s.drop_last().push(s.last()) =~= s);
    }
}

/// Every element of a filtered sequence occurs in the original.
pub proof fn lemma_filter_element(
    s: Seq<(int, Seq<char>)>,
    pred: spec_fn((int, Seq<char>)) -> bool,
    i: int,
)
    requires
        0 <= i < s.filter(pred).len(),
    ensures
        exists|j: int| 0 <= j < s.len() && s[j] == s.filter(pred)[i],
    decreases s.len(),
{
    reveal(Seq::filter);
    if s.len() > 0 {
        let f = s.filter(pred);
        let fd = s.drop_last().filter(pred);
        if pred(s.last()) && i == f.len() - 1 {
            assert(s[s.len() - 1] == f[i]);
        } else {
            lemma_filter_element(s.drop_last(), pred, i);
            let j = choose|j: int|
                0 <= j < s.drop_last().len() && s.drop_last()[j] == fd[i];
            assert(s[j] == f[i]);
        }
    }
}

/// Builds the encoded body text of a field table: each body field as
/// `tag=value` plus separator, header tags skipped, in table order.
fn body_string(msg: &FieldMap) -> (r: String)
    requires
        tags_nonneg(msg@),
    ensures
        r@ == spec_body(msg@),
{
    let mut out = String::new();
    let entries = msg.entries();
    let n = entries.len();
    let mut i: usize = 0;
    proof {
        reveal(Seq::filter);
        assert(msg@.subrange(0, 0) =~= Seq::<(int, Seq<char>)>::empty());
        assert(out@ =~= spec_body(msg@.subrange(0, 0)));
    }
    while i < n
        invariant
            0 <= i <= n,
            n == msg@.len(),
            n == entries@.len(),
            tags_nonneg(msg@),
            forall|k: int| 0 <= k < n ==> msg@[k] == ((#[trigger] entries@[k]).0 as int,
                entries@[k].1@),
            out@ == spec_body(msg@.subrange(0, i as int)),
        decreases n - i,
    {
        let tag: i32 = entries[i].0;
        let ghost pre = msg@.subrange(0, i as int);
        let ghost cur = msg@.subrange(0, i + 1 as int);
        proof {
            assert(cur =~= pre.push(msg@[i as int]));
            lemma_filter_push(pre, |e: (int, Seq<char>)| is_body_tag(e.0), msg@[i as int]);
        }
        if tag != 8 && tag != 9 && tag != 35 && tag != 34 {
            let tag_str = u128_to_string(tag as u128);
            out.append(tag_str.as_str());
            out.append("=");
            out.append(entries[i].1.as_str());
            out.append("\x01");
            proof {
                reveal_strlit("=");
                reveal_strlit("\x01");
                let e = msg@[i as int];
                assert(enc_fields(body_fields(pre) + seq![e]) == enc_fields(body_fields(pre))
                    + enc_fields(seq![e])) by {
                    crate::fields::lemma_enc_fields_concat(body_fields(pre), seq![e]);
                }
                assert(enc_fields(seq![e]) =~= enc_field(e.0, e.1) + enc_fields(
                    Seq::<(int, Seq<char>)>::empty(),
                )) by {
                    assert(seq![e].drop_first() =~= Seq::<(int, Seq<char>)>::empty());
                }
                assert(enc_fields(seq![e]) =~= enc_field(e.0, e.1));
                assert(out@ =~= spec_body(pre) + enc_field(e.0, e.1));
                assert(out@ == spec_body(cur));
            }
        } else {
            proof {
                assert(body_fields(cur) =~= body_fields(pre));
                assert(out@ == spec_body(cur));
            }
        }
        i = i + 1;
    }
    proof {
        assert(msg@.subrange(0, n as int) =~= msg@);
    }
    out
}

/// Serializes the body fields of a table: each field but the header
/// tags as `tag=value` plus separator, in ascending tag order.
pub fn serialize_body(msg: &FieldMap) -> (r: Vec<u8>)
    requires
        tags_nonneg(msg@),
    ensures
        r@ == encode_utf8(spec_body(msg@)),
{
    let s = body_string(msg);
    s.as_str().as_bytes_vec()
}

/// Builds the header text for the given body byte count.
#[verifier::rlimit(50)]
fn head_string(
    msg_type: &str,
    sendercompid: &str,
    targetcompid: &str,
    seqno: u32,
    sending_time: &str,
    body_bytes: usize,
) -> (r: String)
    ensures
        r@ == spec_head(
            msg_type@,
            sendercompid@,
            targetcompid@,
            seqno,
            sending_time@,
            body_bytes as int,
        ),
{
    let mt_len = msg_type.as_bytes().len();
    let snd_len = sendercompid.as_bytes().len();
    let tgt_len = targetcompid.as_bytes().len();
    let msg_len: u128 = 4 + (mt_len as u128) + 4 + (snd_len as u128) + 4 + (tgt_len as u128) + 4
        + 21 + 4 + 7 + (body_bytes as u128);
    let mut h = String::new();
    h.append("8=");
    h.append("FIX4.2");
    h.append("\x01");
    h.append("9=");
    h.append(u128_to_string(msg_len).as_str());
    h.append("\x01");
    h.append("35=");
    h.append(msg_type);
    h.append("\x01");
    h.append("52=");
    h.append(sending_time);
    h.append("\x01");
    h.append("49=");
    h.append(sendercompid);
    h.append("\x01");
    h.append("56=");
    h.append(targetcompid);
    h.append("\x01");
    h.append("34=");
    h.append(u128_to_string_pad(seqno as u128, 7).as_str());
    h.append("\x01");
    proof {
        reveal_strlit("8=");
        reveal_strlit("9=");
        reveal_strlit("35=");
        reveal_strlit("52=");
        reveal_strlit("49=");
        reveal_strlit("56=");
        reveal_strlit("34=");
        reveal_strlit("\x01");
        assert(dec_str(2) =~= seq!['2']);
        assert(dec_str(3) =~= seq!['3']);
        assert(dec_str(4) =~= seq!['4']);
        assert(dec_str(5) =~= seq!['5']);
        assert(dec_str(6) =~= seq!['6']);
        assert(dec_str(8) =~= seq!['8']);
        assert(dec_str(9) =~= seq!['9']);
        assert(dec_str(35) =~= seq!['3', '5']);
        assert(dec_str(52) =~= seq!['5', '2']);
        assert(dec_str(49) =~= seq!['4', '9']);
        assert(dec_str(56) =~= seq!['5', '6']);
        assert(dec_str(34) =~= seq!['3', '4']);
        assert(msg_len as int == body_len_value(
            msg_type@,
            sendercompid@,
            targetcompid@,
            body_bytes as int,
        ));
        assert(h@ =~= spec_head(
            msg_type@,
            sendercompid@,
            targetcompid@,
            seqno,
            sending_time@,
            body_bytes as int,
        ));
    }
    h
}

/// Serializes a whole frame for a caller-supplied sending time:
/// header, body in ascending tag order, and the checksum trailer.
pub fn serialize_with_time(
    msg_type: &str,
    sendercompid: &str,
    targetcompid: &str,
    seqno: u32,
    msg: &FieldMap,
    sending_time: &str,
) -> (r: Vec<u8>)
    requires
        tags_nonneg(msg@),
    ensures
        r@ == encode_utf8(
            spec_frame(msg_type@, sendercompid@, targetcompid@, seqno, msg@, sending_time@),
        ),
{
    let body_s = body_string(msg);
    let body_b = body_s.as_str().as_bytes_vec();
    let body_bytes_n = body_b.len();
    let mut out = head_string(
        msg_type,
        sendercompid,
        targetcompid,
        seqno,
        sending_time,
        body_bytes_n,
    );
    let ghost head_chars = out@;
    let ghost body_chars = body_s@;
    let head_b = out.as_str().as_bytes_vec();
    let ck = get_checksum(head_b.as_slice(), body_b.as_slice());
    proof {
        lemma_encode_utf8_concat(head_chars, body_chars);
        assert(ck as int == spec_checksum(encode_utf8(head_chars + body_chars)));
    }
    out.append(body_s.as_str());
    out.append("10=");
    out.append(u128_to_string_pad(ck as u128, 3).as_str());
    out.append("\x01");
    proof {
        reveal_strlit("10=");
        reveal_strlit("\x01");
        assert(dec_str(1) =~= seq!['1']);
        assert(dec_str(10) =~= seq!['1', '0']);
        assert(out@ =~= spec_frame(
            msg_type@,
            sendercompid@,
            targetcompid@,
            seqno,
            msg@,
            sending_time@,
        ));
    }
    out.as_str().as_bytes_vec()
}

/// The frame some well-formed sending time yields: the byte sequence
/// is the encoding of the frame those inputs and that time denote.
pub open spec fn frames(
    r: Seq<u8>,
    mt: Seq<char>,
    snd: Seq<char>,
    tgt: Seq<char>,
    seqno: u32,
    entries: Seq<(int, Seq<char>)>,
) -> bool {
    exists|ts: Seq<char>|
        #[trigger] ts_wf(ts) && r == encode_utf8(spec_frame(mt, snd, tgt, seqno, entries, ts))
}

/// Serializes a whole frame, stamping it with the current time: for
/// some well-formed sending time, the result is exactly the frame
/// those inputs and that time encode.
pub fn serialize(
    msg_type: &str,
    sendercompid: &str,
    targetcompid: &str,
    seqno: u32,
    msg: &FieldMap,
) -> (r: Vec<u8>)
    requires
        tags_nonneg(msg@),
    ensures
        frames(r@, msg_type@, sendercompid@, targetcompid@, seqno, msg@),
{
    let stamp = now_timestamp();
    let r = serialize_with_time(msg_type, sendercompid, targetcompid, seqno, msg, stamp.as_str());
    proof {
        assert(ts_wf(stamp@) && r@ == encode_utf8(
            spec_frame(msg_type@, sendercompid@, targetcompid@, seqno, msg@, stamp@),
        ));
    }
    r
}

/// Body fields of a serialized new-order acknowledgement, ascending
/// by tag: client order id, transaction type, order id, quantity,
/// order status, price, side, symbol, and execution type.
pub open spec fn new_order_ack_fields(
    clordid: Seq<char>,
    orderid: Seq<char>,
    symbol: Seq<char>,
    price: i32,
    qty: i32,
    side: char,
) -> Seq<(int, Seq<char>)> {
    seq![
        (11int, clordid),
        (20int, seq!['0']),
        (37int, orderid),
        (38int, int_str(qty as int)),
        (39int, seq!['0']),
        (44int, crate::price::spec_price_str(price as int)),
        (54int, seq![side]),
        (55int, symbol),
        (150int, seq!['0']),
    ]
}

impl crate::messages::NewOrderAck {
    /// Serializes a new-order acknowledgement frame.
    pub fn serialize(
        sendercompid: &str,
        targetcompid: &str,
        seqno: u32,
        clordid: &str,
        orderid: &str,
        symbol: &str,
        price: i32,
        qty: i32,
        side: char,
    ) -> (r: Vec<u8>)
        ensures
            frames(
                r@,
                seq!['8'],
                sendercompid@,
                targetcompid@,
                seqno,
                new_order_ack_fields(clordid@, orderid@, symbol@, price, qty, side),
            ),
    {
        let mut v: Vec<(i32, String)> = Vec::new();
        v.push((11, String::from_str(clordid)));
        v.push((20, String::from_str("0")));
        v.push((37, String::from_str(orderid)));
        v.push((38, crate::errors::i32_to_string(qty)));
        v.push((39, String::from_str("0")));
        v.push((44, crate::price::price_to_string(price)));
        v.push((54, char_to_string(side)));
        v.push((55, String::from_str(symbol)));
        v.push((150, String::from_str("0")));
        proof {
            reveal_strlit("0");
            assert(v@.len() == 9);
            assert(v@[0].0 == 11 && v@[0].1@ == clordid@);
            assert(v@[1].0 == 20 && v@[1].1@ =~= seq!['0']);
            assert(v@[2].0 == 37 && v@[2].1@ == orderid@);
            assert(v@[3].0 == 38 && v@[3].1@ == int_str(qty as int));
            assert(v@[4].0 == 39 && v@[4].1@ =~= seq!['0']);
            assert(v@[5].0 == 44 && v@[5].1@ == crate::price::spec_price_str(price as int));
            assert(v@[6].0 == 54 && v@[6].1@ =~= seq![side]);
            assert(v@[7].0 == 55 && v@[7].1@ == symbol@);
            assert(v@[8].0 == 150 && v@[8].1@ =~= seq!['0']);
        }
        let fm = FieldMap::from_entries(v);
        let r = serialize("8", sendercompid, targetcompid, seqno, &fm);
        proof {
            reveal_strlit("8");
            assert("8"@ =~= seq!['8']);
            assert(fm@ =~= new_order_ack_fields(clordid@, orderid@, symbol@, price, qty, side));
        }
        r
    }
}

impl crate::messages::Login {
    /// Serializes a login frame; it carries no body fields.
    pub fn serialize(sendercompid: &str, targetcompid: &str, seqno: u32) -> (r: Vec<u8>)
        ensures
            frames(
                r@,
                seq!['A'],
                sendercompid@,
                targetcompid@,
                seqno,
                Seq::<(int, Seq<char>)>::empty(),
            ),
    {
        let fm = FieldMap::new();
        let r = serialize("A", sendercompid, targetcompid, seqno, &fm);
        proof {
            reveal_strlit("A");
            assert("A"@ =~= seq!['A']);
        }
        r
    }
}

impl crate::messages::Heartbeat {
    /// Serializes a heartbeat frame; it carries no body fields.
    pub fn serialize(sendercompid: &str, targetcompid: &str, seqno: u32) -> (r: Vec<u8>)
        ensures
            frames(
                r@,
                seq!['0'],
                sendercompid@,
                targetcompid@,
                seqno,
                Seq::<(int, Seq<char>)>::empty(),
            ),
    {
        let fm = FieldMap::new();
        let r = serialize("0", sendercompid, targetcompid, seqno, &fm);
        proof {
            reveal_strlit("0");
            assert("0"@ =~= seq!['0']);
        }
        r
    }
}


/// Body fields of a serialized cancel acknowledgement, ascending by
/// tag.
pub open spec fn cancel_order_ack_fields(
    clordid: Seq<char>,
    origclordid: Seq<char>,
    orderid: Seq<char>,
    symbol: Seq<char>,
) -> Seq<(int, Seq<char>)> {
    seq![
        (11int, clordid),
        (20int, seq!['0']),
        (37int, orderid),
        (39int, seq!['4']),
        (41int, origclordid),
        (55int, symbol),
        (150int, seq!['4']),
    ]
}

impl crate::messages::CancelOrderAck {
    /// Serializes a cancel acknowledgement frame.
    pub fn serialize(
        sendercompid: &str,
        targetcompid: &str,
        seqno: u32,
        clordid: &str,
        origclordid: &str,
        orderid: &str,
        symbol: &str,
    ) -> (r: Vec<u8>)
        ensures
            frames(
                r@,
                seq!['8'],
                sendercompid@,
                targetcompid@,
                seqno,
                cancel_order_ack_fields(clordid@, origclordid@, orderid@, symbol@),
            ),
    {
        let mut v: Vec<(i32, String)> = Vec::new();
        v.push((11, String::from_str(clordid)));
        v.push((20, String::from_str("0")));
        v.push((37, String::from_str(orderid)));
        v.push((39, String::from_str("4")));
        v.push((41, String::from_str(origclordid)));
        v.push((55, String::from_str(symbol)));
        v.push((150, String::from_str("4")));
        proof {
            reveal_strlit("0");
            reveal_strlit("4");
            assert(v@.len() == 7);
            assert(v@[0].0 == 11 && v@[0].1@ == clordid@);
            assert(v@[1].0 == 20 && v@[1].1@ =~= seq!['0']);
            assert(v@[2].0 == 37 && v@[2].1@ == orderid@);
            assert(v@[3].0 == 39 && v@[3].1@ =~= seq!['4']);
            assert(v@[4].0 == 41 && v@[4].1@ == origclordid@);
            assert(v@[5].0 == 55 && v@[5].1@ == symbol@);
            assert(v@[6].0 == 150 && v@[6].1@ =~= seq!['4']);
        }
        let fm = FieldMap::from_entries(v);
        let r = serialize("8", sendercompid, targetcompid, seqno, &fm);
        proof {
            reveal_strlit("8");
            assert("8"@ =~= seq!['8']);
            assert(fm@ =~= cancel_order_ack_fields(clordid@, origclordid@, orderid@, symbol@));
        }
        r
    }
}

/// Body fields of a serialized order rejection, ascending by tag.
pub open spec fn order_reject_fields(
    clordid: Seq<char>,
    symbol: Seq<char>,
    text: Seq<char>,
) -> Seq<(int, Seq<char>)> {
    seq![
        (11int, clordid),
        (20int, seq!['0']),
        (39int, seq!['8']),
        (55int, symbol),
        (58int, text),
        (150int, seq!['8']),
    ]
}

impl crate::messages::OrderReject {
    /// Serializes an order rejection frame.
    pub fn serialize(
        sendercompid: &str,
        targetcompid: &str,
        seqno: u32,
        clordid: &str,
        symbol: &str,
        text: &str,
    ) -> (r: Vec<u8>)
        ensures
            frames(
                r@,
                seq!['8'],
                sendercompid@,
                targetcompid@,
                seqno,
                order_reject_fields(clordid@, symbol@, text@),
            ),
    {
        let mut v: Vec<(i32, String)> = Vec::new();
        v.push((11, String::from_str(clordid)));
        v.push((20, String::from_str("0")));
        v.push((39, String::from_str("8")));
        v.push((55, String::from_str(symbol)));
        v.push((58, String::from_str(text)));
        v.push((150, String::from_str("8")));
        proof {
            reveal_strlit("0");
            reveal_strlit("8");
            assert(v@.len() == 6);
            assert(v@[0].0 == 11 && v@[0].1@ == clordid@);
            assert(v@[1].0 == 20 && v@[1].1@ =~= seq!['0']);
            assert(v@[2].0 == 39 && v@[2].1@ =~= seq!['8']);
            assert(v@[3].0 == 55 && v@[3].1@ == symbol@);
            assert(v@[4].0 == 58 && v@[4].1@ == text@);
            assert(v@[5].0 == 150 && v@[5].1@ =~= seq!['8']);
        }
        let fm = FieldMap::from_entries(v);
        let r = serialize("8", sendercompid, targetcompid, seqno, &fm);
        proof {
            assert("8"@ =~= seq!['8']);
            assert(fm@ =~= order_reject_fields(clordid@, symbol@, text@));
        }
        r
    }
}

/// The execution-type code of a fill: `2` for a complete fill (no
/// quantity left), `1` for a partial one.
pub open spec fn fill_type(leaves_qty: i32) -> Seq<char> {
    if leaves_qty == 0 {
        seq!['2']
    } else {
        seq!['1']
    }
}

/// Body fields of a serialized fill report, ascending by tag. The
/// execution type and the order status both carry the fill-or-partial
/// code.
pub open spec fn fill_fields(
    clordid: Seq<char>,
    orderid: Seq<char>,
    symbol: Seq<char>,
    execid: u64,
    exec_price: i32,
    exec_qty: i32,
    leaves_qty: i32,
) -> Seq<(int, Seq<char>)> {
    seq![
        (11int, clordid),
        (17int, dec_str(execid as int)),
        (20int, seq!['0']),
        (31int, crate::price::spec_price_str(exec_price as int)),
        (32int, int_str(exec_qty as int)),
        (37int, orderid),
        (39int, fill_type(leaves_qty)),
        (55int, symbol),
        (150int, fill_type(leaves_qty)),
    ]
}

impl crate::messages::Fill {
    /// Serializes a fill report frame; the execution-type and
    /// order-status codes distinguish a complete fill from a partial
    /// one by whether any quantity is left.
    pub fn serialize(
        sendercompid: &str,
        targetcompid: &str,
        seqno: u32,
        clordid: &str,
        orderid: &str,
        symbol: &str,
        execid: u64,
        exec_price: i32,
        exec_qty: i32,
        leaves_qty: i32,
        _side: char,
    ) -> (r: Vec<u8>)
        ensures
            frames(
                r@,
                seq!['8'],
                sendercompid@,
                targetcompid@,
                seqno,
                fill_fields(clordid@, orderid@, symbol@, execid, exec_price, exec_qty, leaves_qty),
            ),
    {
        let tipe: &str = if leaves_qty == 0 {
            "2"
        } else {
            "1"
        };
        proof {
            reveal_strlit("1");
            reveal_strlit("2");
            assert(tipe@ =~= fill_type(leaves_qty));
        }
        let mut v: Vec<(i32, String)> = Vec::new();
        v.push((11, String::from_str(clordid)));
        v.push((17, u128_to_string(execid as u128)));
        v.push((20, String::from_str("0")));
        v.push((31, crate::price::price_to_string(exec_price)));
        v.push((32, crate::errors::i32_to_string(exec_qty)));
        v.push((37, String::from_str(orderid)));
        v.push((39, String::from_str(tipe)));
        v.push((55, String::from_str(symbol)));
        v.push((150, String::from_str(tipe)));
        proof {
            reveal_strlit("0");
            assert(v@.len() == 9);
            assert(v@[0].0 == 11 && v@[0].1@ == clordid@);
            assert(v@[1].0 == 17 && v@[1].1@ == dec_str(execid as int));
            assert(v@[2].0 == 20 && v@[2].1@ =~= seq!['0']);
            assert(v@[3].0 == 31 && v@[3].1@ == crate::price::spec_price_str(exec_price as int));
            assert(v@[4].0 == 32 && v@[4].1@ == int_str(exec_qty as int));
            assert(v@[5].0 == 37 && v@[5].1@ == orderid@);
            assert(v@[6].0 == 39 && v@[6].1@ == fill_type(leaves_qty));
            assert(v@[7].0 == 55 && v@[7].1@ == symbol@);
            assert(v@[8].0 == 150 && v@[8].1@ == fill_type(leaves_qty));
        }
        let fm = FieldMap::from_entries(v);
        let r = serialize("8", sendercompid, targetcompid, seqno, &fm);
        proof {
            reveal_strlit("8");
            assert("8"@ =~= seq!['8']);
            assert(fm@ =~= fill_fields(
                clordid@,
                orderid@,
                symbol@,
                execid,
                exec_price,
                exec_qty,
                leaves_qty,
            ));
        }
        r
    }
}

/// Body fields of a serialized sequence reset, ascending by tag: the
/// new sequence number and the gap-fill flag.
pub open spec fn sequence_reset_fields(new_seqno: u32, gap_fill: bool) -> Seq<(int, Seq<char>)> {
    seq![
        (36int, dec_str(new_seqno as int)),
        (123int, if gap_fill {
            seq!['Y']
        } else {
            seq!['N']
        }),
    ]
}

impl crate::messages::SequenceReset {
    /// Serializes a sequence-reset frame.
    pub fn serialize(
        sendercompid: &str,
        targetcompid: &str,
        seqno: u32,
        new_seqno: u32,
        gap_fill: bool,
    ) -> (r: Vec<u8>)
        ensures
            frames(
                r@,
                seq!['4'],
                sendercompid@,
                targetcompid@,
                seqno,
                sequence_reset_fields(new_seqno, gap_fill),
            ),
    {
        let flag: &str = if gap_fill {
            "Y"
        } else {
            "N"
        };
        proof {
            reveal_strlit("Y");
            reveal_strlit("N");
            assert(flag@ =~= if gap_fill {
                seq!['Y']
            } else {
                seq!['N']
            });
        }
        let mut v: Vec<(i32, String)> = Vec::new();
        v.push((36, u128_to_string(new_seqno as u128)));
        v.push((123, String::from_str(flag)));
        proof {
            assert(v@.len() == 2);
            assert(v@[0].0 == 36 && v@[0].1@ == dec_str(new_seqno as int));
            assert(v@[1].0 == 123 && v@[1].1@ == flag@);
        }
        let fm = FieldMap::from_entries(v);
        let r = serialize("4", sendercompid, targetcompid, seqno, &fm);
        proof {
            reveal_strlit("4");
            assert("4"@ =~= seq!['4']);
            assert(fm@ =~= sequence_reset_fields(new_seqno, gap_fill));
        }
        r
    }
}


/// The checksum law: in every frame the serializer describes, the
/// three digits placed in the trailer's checksum field are exactly the
/// zero-padded byte sum, modulo 256, of the header and body bytes
/// before the trailer — as the checksum calculator computes it
/// independently.
pub proof fn lemma_frame_checksum(
    mt: Seq<char>,
    snd: Seq<char>,
    tgt: Seq<char>,
    seqno: u32,
    entries: Seq<(int, Seq<char>)>,
    ts: Seq<char>,
)
    ensures
        ({
            let frame = spec_frame(mt, snd, tgt, seqno, entries, ts);
            let hb = frame.subrange(0, frame.len() - 7);
            let digits = frame.subrange(frame.len() - 4, frame.len() - 1);
            &&& frame.len() >= 7
            &&& frame =~= hb + seq!['1', '0', '='] + digits + seq!['\x01']
            &&& digits.len() == 3
            &&& is_digits(digits)
            &&& digits_val(digits) == spec_checksum(encode_utf8(hb))
        }),
{
    let body = spec_body(entries);
    let head = spec_head(mt, snd, tgt, seqno, ts, encode_utf8(body).len() as int);
    let ck = spec_checksum(encode_utf8(head + body));
    let pad = pad_str(ck, 3);
    assert(0 <= ck < 256);
    lemma_dec_str_len(ck);
    lemma_pad_str(ck, 3);
    assert(pad.len() == 3);
    assert(dec_str(1) =~= seq!['1']);
    assert(dec_str(10) =~= seq!['1', '0']);
    let frame = spec_frame(mt, snd, tgt, seqno, entries, ts);
    assert(frame =~= (head + body) + seq!['1', '0', '='] + pad + seq!['\x01']);
    assert(frame.subrange(0, frame.len() - 7) =~= head + body);
    assert(frame.subrange(frame.len() - 4, frame.len() - 1) =~= pad);
}

/// The header's field list, in wire order.
pub open spec fn head_fields(
    mt: Seq<char>,
    snd: Seq<char>,
    tgt: Seq<char>,
    seqno: u32,
    ts: Seq<char>,
    body_bytes: int,
) -> Seq<(int, Seq<char>)> {
    seq![
        (8int, "FIX4.2"@),
        (9int, dec_str(body_len_value(mt, snd, tgt, body_bytes))),
        (35int, mt),
        (52int, ts),
        (49int, snd),
        (56int, tgt),
        (34int, pad_str(seqno as int, 7)),
    ]
}

/// The header text is the encoding of the header's field list.
pub proof fn lemma_spec_head_is_enc(
    mt: Seq<char>,
    snd: Seq<char>,
    tgt: Seq<char>,
    seqno: u32,
    ts: Seq<char>,
    body_bytes: int,
)
    ensures
        spec_head(mt, snd, tgt, seqno, ts, body_bytes) == enc_fields(
            head_fields(mt, snd, tgt, seqno, ts, body_bytes),
        ),
{
    reveal_with_fuel(crate::fields::enc_fields, 10);
    let lv = body_len_value(mt, snd, tgt, body_bytes);
    let pad7 = pad_str(seqno as int, 7);
    let hfs = head_fields(mt, snd, tgt, seqno, ts, body_bytes);
    assert(hfs.drop_first() =~= seq![
        (9int, dec_str(lv)),
        (35int, mt),
        (52int, ts),
        (49int, snd),
        (56int, tgt),
        (34int, pad7),
    ]);
    assert(hfs.drop_first().drop_first() =~= seq![
        (35int, mt),
        (52int, ts),
        (49int, snd),
        (56int, tgt),
        (34int, pad7),
    ]);
    assert(hfs.drop_first().drop_first().drop_first() =~= seq![
        (52int, ts),
        (49int, snd),
        (56int, tgt),
        (34int, pad7),
    ]);
    assert(hfs.drop_first().drop_first().drop_first().drop_first() =~= seq![
        (49int, snd),
        (56int, tgt),
        (34int, pad7),
    ]);
    assert(hfs.drop_first().drop_first().drop_first().drop_first().drop_first() =~= seq![
        (56int, tgt),
        (34int, pad7),
    ]);
    assert(hfs.drop_first().drop_first().drop_first().drop_first().drop_first().drop_first()
        =~= seq![(34int, pad7)]);
    assert(seq![(34int, pad7)].drop_first() =~= Seq::<(int, Seq<char>)>::empty());
    assert(enc_fields(seq![(34int, pad7)]) =~= enc_field(34, pad7));
    assert(enc_fields(hfs) =~= spec_head(mt, snd, tgt, seqno, ts, body_bytes));
}

/// The field list a serialized frame carries, in wire order: the
/// seven header fields, the body fields, and the checksum trailer
/// field.
pub open spec fn frame_fields(
    mt: Seq<char>,
    snd: Seq<char>,
    tgt: Seq<char>,
    seqno: u32,
    entries: Seq<(int, Seq<char>)>,
    ts: Seq<char>,
) -> Seq<(int, Seq<char>)> {
    let body = spec_body(entries);
    let bl = encode_utf8(body).len() as int;
    let head = spec_head(mt, snd, tgt, seqno, ts, bl);
    let ck = spec_checksum(encode_utf8(head + body));
    head_fields(mt, snd, tgt, seqno, ts, bl) + body_fields(entries) + seq![
        (10int, pad_str(ck, 3)),
    ]
}

/// Every field of a serialized frame is well-formed: its tag fits the
/// tag type and its value holds no separator byte, provided the
/// frame's inputs do not.
pub proof fn lemma_frame_fields_ok(
    mt: Seq<char>,
    snd: Seq<char>,
    tgt: Seq<char>,
    seqno: u32,
    entries: Seq<(int, Seq<char>)>,
    ts: Seq<char>,
)
    requires
        no_soh(mt),
        no_soh(snd),
        no_soh(tgt),
        ts_wf(ts),
        forall|i: int|
            0 <= i < entries.len() ==> 0 <= (#[trigger] entries[i]).0 <= i32::MAX && no_soh(
                entries[i].1,
            ),
    ensures
        fields_ok(frame_fields(mt, snd, tgt, seqno, entries, ts)),
{
    let body = spec_body(entries);
    let bl = encode_utf8(body).len() as int;
    let lv = body_len_value(mt, snd, tgt, bl);
    let head = spec_head(mt, snd, tgt, seqno, ts, bl);
    let ck = spec_checksum(encode_utf8(head + body));
    let pad7 = pad_str(seqno as int, 7);
    let pad3 = pad_str(ck, 3);
    let hfs = head_fields(mt, snd, tgt, seqno, ts, bl);
    let bfs = body_fields(entries);
    let all = frame_fields(mt, snd, tgt, seqno, entries, ts);
    assert(0 <= ck < 256);
    lemma_dec_str_len(ck);
    lemma_pad_str(ck, 3);
    lemma_pad_str(seqno as int, 7);
    assert(lv >= 0);
    lemma_dec_str(lv);
    reveal_strlit("FIX4.2");
    assert forall|i: int| 0 <= i < all.len() implies 0 <= (#[trigger] all[i]).0 <= i32::MAX
        && no_soh(all[i].1) by {
        if i < 7 {
            assert(all[i] == hfs[i]);
            if i == 0 {
                assert(no_soh("FIX4.2"@));
            } else if i == 1 {
                assert(forall|k: int|
                    0 <= k < dec_str(lv).len() ==> is_digit(#[trigger] dec_str(lv)[k]));
            } else if i == 6 {
                assert(forall|k: int| 0 <= k < pad7.len() ==> is_digit(#[trigger] pad7[k]));
            }
        } else if i < 7 + bfs.len() {
            assert(all[i] == bfs[i - 7]);
            lemma_filter_element(
                entries,
                |e: (int, Seq<char>)| is_body_tag(e.0),
                i - 7,
            );
            let j = choose|j: int| 0 <= j < entries.len() && entries[j] == bfs[i - 7];
            assert(0 <= entries[j].0 <= i32::MAX && no_soh(entries[j].1));
        } else {
            assert(all[i] == seq![(10int, pad3)][0]);
            assert(forall|k: int| 0 <= k < pad3.len() ==> is_digit(#[trigger] pad3[k]));
        }
    }
}

/// The extraction law for serialized frames: feeding any frame the
/// serializer describes (for inputs free of the separator byte) to the
/// field extractor succeeds and yields exactly the mapping of the
/// frame's fields, later duplicates winning. In particular the four
/// header-reserved tags, which no body field can carry, read back as
/// the protocol id, the declared body length, the message type and
/// the padded sequence number the frame was built with.
#[verifier::rlimit(100)]
pub proof fn lemma_frame_extracts(
    mt: Seq<char>,
    snd: Seq<char>,
    tgt: Seq<char>,
    seqno: u32,
    entries: Seq<(int, Seq<char>)>,
    ts: Seq<char>,
)
    requires
        no_soh(mt),
        no_soh(snd),
        no_soh(tgt),
        ts_wf(ts),
        forall|i: int|
            0 <= i < entries.len() ==> 0 <= (#[trigger] entries[i]).0 <= i32::MAX && no_soh(
                entries[i].1,
            ),
    ensures
        spec_extract(spec_frame(mt, snd, tgt, seqno, entries, ts)) matches Ok(m) && {
            let body = spec_body(entries);
            let bl = encode_utf8(body).len() as int;
            &&& m == crate::fields::seq_to_map(frame_fields(mt, snd, tgt, seqno, entries, ts))
            &&& m.contains_key(8) && m[8] == "FIX4.2"@
            &&& m.contains_key(9) && m[9] == dec_str(body_len_value(mt, snd, tgt, bl))
            &&& m.contains_key(35) && m[35] == mt
            &&& m.contains_key(34) && m[34] == pad_str(seqno as int, 7)
        },
{
    let body = spec_body(entries);
    let bl = encode_utf8(body).len() as int;
    let lv = body_len_value(mt, snd, tgt, bl);
    let head = spec_head(mt, snd, tgt, seqno, ts, bl);
    let ck = spec_checksum(encode_utf8(head + body));
    let pad7 = pad_str(seqno as int, 7);
    let pad3 = pad_str(ck, 3);
    let hfs = head_fields(mt, snd, tgt, seqno, ts, bl);
    let bfs = body_fields(entries);
    let tfs: Seq<(int, Seq<char>)> = seq![(10int, pad3)];
    let all = hfs + bfs + tfs;
    reveal_with_fuel(crate::fields::enc_fields, 10);

    // the header is the encoding of its field list
    lemma_spec_head_is_enc(mt, snd, tgt, seqno, ts, bl);

    // the trailer is the encoding of its one field
    assert(tfs.drop_first() =~= Seq::<(int, Seq<char>)>::empty());
    assert(enc_fields(tfs) =~= enc_field(10, pad3));

    // the whole frame is the encoding of the concatenated field list
    crate::fields::lemma_enc_fields_concat(hfs, bfs);
    crate::fields::lemma_enc_fields_concat(hfs + bfs, tfs);
    assert((hfs + bfs) + tfs =~= all);
    let frame = spec_frame(mt, snd, tgt, seqno, entries, ts);
    assert(enc_fields(all) =~= frame);

    // every field of the list is well-formed
    assert(0 <= ck < 256);
    lemma_dec_str_len(ck);
    lemma_pad_str(ck, 3);
    lemma_pad_str(seqno as int, 7);
    assert(lv >= 0);
    lemma_dec_str(lv);
    lemma_frame_fields_ok(mt, snd, tgt, seqno, entries, ts);
    assert(all =~= frame_fields(mt, snd, tgt, seqno, entries, ts));
    assert(fields_ok(all));

    // the protocol id leads and its tag never recurs
    assert(all[0].0 == 8 && all[0].1 == "FIX4.2"@);
    assert forall|i: int| 1 <= i < all.len() implies (#[trigger] all[i]).0 != 8 by {
        if i < 7 {
            assert(all[i] == hfs[i]);
        } else if i < 7 + bfs.len() {
            assert(all[i] == bfs[i - 7]);
            entries.lemma_filter_pred(|e: (int, Seq<char>)| is_body_tag(e.0), i - 7);
        } else {
            assert(all[i] == tfs[0]);
        }
    }
    crate::fields::lemma_extract_begin_string(all);
    crate::fields::lemma_extract_encoded(all);
    assert(all =~= frame_fields(mt, snd, tgt, seqno, entries, ts));

    // the header-reserved tags never recur after their header entries
    assert forall|j: int|
        0 <= j < all.len() && j >= 7 implies is_body_tag((#[trigger] all[j]).0) || all[j].0
            == 10 by {
        if j < 7 + bfs.len() {
            assert(all[j] == bfs[j - 7]);
            entries.lemma_filter_pred(|e: (int, Seq<char>)| is_body_tag(e.0), j - 7);
        } else {
            assert(all[j] == tfs[0]);
        }
    }
    assert(forall|j: int| 1 < j < all.len() ==> (#[trigger] all[j]).0 != all[1].0);
    assert(forall|j: int| 2 < j < all.len() ==> (#[trigger] all[j]).0 != all[2].0);
    assert(forall|j: int| 6 < j < all.len() ==> (#[trigger] all[j]).0 != all[6].0);
    crate::fields::lemma_seq_to_map_at(all, 1);
    crate::fields::lemma_seq_to_map_at(all, 2);
    crate::fields::lemma_seq_to_map_at(all, 6);
}


} // verus!
