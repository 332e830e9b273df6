//! The message framer and decoder.
//!
//! Framing locates one complete message inside a possibly-partial
//! buffer: everything up through the checksum field's trailing
//! separator, reporting the exact byte count consumed so the caller
//! can advance its read cursor and frame the remainder. Decoding
//! classifies the framed message by its type tag — with a secondary
//! status tag for execution reports — and routes it to the matching
//! typed constructor. Framing does not validate the checksum value;
//! that is left to the caller, beside the session layer.

use vstd::prelude::*;
use vstd::utf8::encode_utf8;

use crate::errors::{FixError, FixErrorKind};
use crate::checksum::spec_checksum;
use crate::fields::{enc_field, enc_fields, fields_ok, no_soh, spec_extract, to_fix_hash};
use crate::messages::{SpecLogin,
    spec_cancel_order, spec_fill, spec_login, spec_new_order, spec_resend_request, CancelOrder,
    Fill, Heartbeat, Login, Logout, Message, NewOrder, NewOrderAck, ResendRequest, SequenceReset,
    SpecMessage,
};
use crate::num::{dec_str, digit_val, digits_val, is_digit, lemma_dec_str, lemma_dec_str_len,
    lemma_pad_str, pad_str, spec_parse_u32, str_eq};
use crate::errors::int_str;
use crate::serialize::{body_fields, frame_fields, head_fields, is_body_tag, lemma_filter_all,
    lemma_filter_element, lemma_frame_extracts, lemma_frame_fields_ok, lemma_spec_head_is_enc,
    new_order_ack_fields, spec_body, spec_frame, spec_head, ts_wf};
use crate::tags;

verus! {

/// The checksum-field marker starts at `i`: a separator byte followed
/// by `10=`.
pub open spec fn marker_at(s: Seq<char>, i: int) -> bool {
    &&& 0 <= i
    &&& i + 4 <= s.len()
    &&& s[i] == '\x01'
    &&& s[i + 1] == '1'
    &&& s[i + 2] == '0'
    &&& s[i + 3] == '='
}

/// Index of the first checksum-field marker, or -1 if none occurs.
pub open spec fn find_marker(s: Seq<char>) -> int
    decreases s.len(),
{
    if s.len() == 0 {
        -1
    } else if marker_at(s, 0) {
        0
    } else if find_marker(s.drop_first()) == -1 {
        -1
    } else {
        find_marker(s.drop_first()) + 1
    }
}

/// `find_marker` returns -1 exactly when no marker occurs, and
/// otherwise the least index carrying one.
pub proof fn lemma_find_marker(s: Seq<char>)
    ensures
        find_marker(s) == -1 ==> forall|i: int| !marker_at(s, i),
        find_marker(s) != -1 ==> {
            &&& 0 <= find_marker(s)
            &&& marker_at(s, find_marker(s))
            &&& forall|i: int| 0 <= i < find_marker(s) ==> !marker_at(s, i)
        },
    decreases s.len(),
{
    if s.len() > 0 && !marker_at(s, 0) {
        let d = s.drop_first();
        lemma_find_marker(d);
        assert forall|i: int| 0 <= i implies marker_at(d, i) == marker_at(s, i + 1) by {
            if i + 4 <= d.len() {
                assert(d[i] == s[i + 1]);
                assert(d[i + 1] == s[i + 2]);
                assert(d[i + 2] == s[i + 3]);
                assert(d[i + 3] == s[i + 4]);
            }
        }
        let r = find_marker(d);
        if r == -1 {
            assert forall|i: int| !marker_at(s, i) by {
                if i >= 1 {
                    assert(!marker_at(d, i - 1));
                }
            }
        } else {
            assert(marker_at(s, r + 1));
            assert forall|i: int| 0 <= i < r + 1 implies !marker_at(s, i) by {
                if i >= 1 {
                    assert(!marker_at(d, i - 1));
                }
            }
        }
    }
}

/// Any index carrying a marker with no earlier one is the index
/// `find_marker` returns.
pub proof fn lemma_find_marker_unique(s: Seq<char>, k: int)
    requires
        marker_at(s, k),
        forall|i: int| 0 <= i < k ==> !marker_at(s, i),
    ensures
        find_marker(s) == k,
{
    lemma_find_marker(s);
}

/// Where one complete frame ends: eight characters past the first
/// checksum-field marker (the marker, three checksum digits and the
/// trailing separator), provided the buffer holds that many.
pub open spec fn spec_frame_end(s: Seq<char>) -> Option<int> {
    let i = find_marker(s);
    if i == -1 {
        None
    } else if s.len() < i + 8 {
        None
    } else {
        Some(i + 8)
    }
}

/// The decision table over the message-type tag: each recognized code
/// routes to its constructor; an execution report is sub-dispatched on
/// the execution-type tag; an unrecognized code is the unexpected-
/// message error; a missing type tag is the missing-field error.
pub open spec fn spec_dispatch(m: Map<int, Seq<char>>) -> Result<SpecMessage, FixError> {
    if !m.contains_key(35) {
        Err(FixError { kind: FixErrorKind::MissingField, field: 35 })
    } else {
        let mt = m[35];
        if mt == seq!['A'] {
            match spec_login(m) {
                Ok(l) => Ok(SpecMessage::Login(l)),
                Err(e) => Err(e),
            }
        } else if mt == seq!['5'] {
            Ok(SpecMessage::Logout)
        } else if mt == seq!['0'] {
            Ok(SpecMessage::Heartbeat)
        } else if mt == seq!['2'] {
            match spec_resend_request(m) {
                Ok(rr) => Ok(SpecMessage::ResendRequest(rr)),
                Err(e) => Err(e),
            }
        } else if mt == seq!['4'] {
            Ok(SpecMessage::SequenceReset)
        } else if mt == seq!['D'] {
            match spec_new_order(m) {
                Ok(o) => Ok(SpecMessage::New(o)),
                Err(e) => Err(e),
            }
        } else if mt == seq!['F'] {
            match spec_cancel_order(m) {
                Ok(c) => Ok(SpecMessage::Cancel(c)),
                Err(e) => Err(e),
            }
        } else if mt == seq!['8'] {
            if m.contains_key(150) {
                let et = m[150];
                if et == seq!['0'] {
                    Ok(SpecMessage::NewAck)
                } else if et == seq!['1'] || et == seq!['2'] {
                    match spec_fill(m) {
                        Ok(f) => Ok(SpecMessage::Fill(f)),
                        Err(e) => Err(e),
                    }
                } else {
                    Err(FixError { kind: FixErrorKind::MissingField, field: 150 })
                }
            } else {
                Err(FixError { kind: FixErrorKind::MissingField, field: 150 })
            }
        } else {
            Err(FixError { kind: FixErrorKind::UnexpectedMessage, field: 0 })
        }
    }
}

/// What parsing a buffer yields: the incomplete error while no whole
/// frame is present; otherwise the frame's fields are extracted and
/// dispatched, and success carries the consumed byte count beside the
/// decoded message.
pub open spec fn spec_parse(s: Seq<char>) -> Result<(int, SpecMessage), FixError> {
    match spec_frame_end(s) {
        None => Err(FixError { kind: FixErrorKind::Incomplete, field: 10 }),
        Some(end) => {
            let frame = s.subrange(0, end);
            match spec_extract(frame) {
                Err(e) => Err(e),
                Ok(m) => match spec_dispatch(m) {
                    Err(e) => Err(e),
                    Ok(sm) => Ok((encode_utf8(frame).len() as int, sm)),
                },
            }
        },
    }
}

/// Frames and decodes one message from the buffer.
///
/// While the checksum-field marker is absent, or fewer than eight
/// characters from its start are buffered, the message is incomplete
/// and the caller should buffer more input and retry. Otherwise the
/// frame reaching through the checksum field's separator is split
/// into fields and classified by its type tag, and the count of
/// consumed bytes is reported beside the decoded message.
pub fn parse(fixstr: &str) -> (r: Result<(usize, Message), FixError>)
    ensures
        match r {
            Ok(p) => (spec_parse(fixstr@) matches Ok(sp) && p.0 as int == sp.0 && p.1@ == sp.1),
            Err(e) => (spec_parse(fixstr@) matches Err(e2) && e == e2),
        },
{
    let ghost s = fixstr@;
    let n = fixstr.unicode_len();
    let mut idx: usize = 0;
    let mut found: bool = false;
    while !found && n >= 4 && idx <= n - 4
        invariant
            0 <= idx <= n,
            n == s.len(),
            s == fixstr@,
            forall|j: int| 0 <= j < idx ==> !marker_at(s, j),
            found ==> marker_at(s, idx as int),
        decreases n - idx + (if found {
            0int
        } else {
            1int
        }),
    {
        if fixstr.get_char(idx) == '\x01' && fixstr.get_char(idx + 1) == '1' && fixstr.get_char(
            idx + 2,
        ) == '0' && fixstr.get_char(idx + 3) == '=' {
            found = true;
        } else {
            proof {
                assert(!marker_at(s, idx as int));
            }
            idx = idx + 1;
        }
    }
    if !found {
        proof {
            assert forall|j: int| !marker_at(s, j) by {
                if 0 <= j && j + 4 <= s.len() {
                    assert(j < idx);
                }
            }
            lemma_find_marker(s);
            if find_marker(s) != -1 {
                assert(marker_at(s, find_marker(s)));
            }
        }
        return Err(FixError { kind: FixErrorKind::Incomplete, field: tags::CheckSum });
    }
    proof {
        lemma_find_marker_unique(s, idx as int);
    }
    if n - idx < 8 {
        return Err(FixError { kind: FixErrorKind::Incomplete, field: tags::CheckSum });
    }
    let end = idx + 8;
    let frame = fixstr.substring_char(0, end);
    let bytes_eaten = frame.as_bytes().len();
    proof {
        assert(frame@ == s.subrange(0, end as int));
        assert(bytes_eaten as int == encode_utf8(s.subrange(0, end as int)).len());
    }
    let fm = match to_fix_hash(frame) {
        Ok(fm) => fm,
        Err(e) => {
            return Err(e);
        },
    };
    proof {
        reveal_strlit("A");
        reveal_strlit("5");
        reveal_strlit("0");
        reveal_strlit("2");
        reveal_strlit("4");
        reveal_strlit("D");
        reveal_strlit("F");
        reveal_strlit("8");
        reveal_strlit("1");
        assert("A"@ =~= seq!['A']);
        assert("5"@ =~= seq!['5']);
        assert("0"@ =~= seq!['0']);
        assert("2"@ =~= seq!['2']);
        assert("4"@ =~= seq!['4']);
        assert("D"@ =~= seq!['D']);
        assert("F"@ =~= seq!['F']);
        assert("8"@ =~= seq!['8']);
        assert("1"@ =~= seq!['1']);
    }
    let mt = match fm.get(tags::MsgType) {
        Some(mt) => mt,
        None => {
            return Err(FixError { kind: FixErrorKind::MissingField, field: 35 });
        },
    };
    if str_eq(mt.as_str(), "A") {
        let obj = Login::new(&fm)?;
        Ok((bytes_eaten, Message::Login(obj)))
    } else if str_eq(mt.as_str(), "5") {
        Ok((bytes_eaten, Message::Logout(Logout {  })))
    } else if str_eq(mt.as_str(), "0") {
        Ok((bytes_eaten, Message::Heartbeat(Heartbeat {  })))
    } else if str_eq(mt.as_str(), "2") {
        let rr = ResendRequest::new(&fm)?;
        Ok((bytes_eaten, Message::ResendRequest(rr)))
    } else if str_eq(mt.as_str(), "4") {
        Ok((bytes_eaten, Message::SequenceReset(SequenceReset {  })))
    } else if str_eq(mt.as_str(), "D") {
        let obj = NewOrder::new(&fm)?;
        Ok((bytes_eaten, Message::New(obj)))
    } else if str_eq(mt.as_str(), "F") {
        let obj = CancelOrder::new(&fm)?;
        Ok((bytes_eaten, Message::Cancel(obj)))
    } else if str_eq(mt.as_str(), "8") {
        let et = match fm.get(tags::ExecType) {
            Some(et) => et,
            None => {
                return Err(FixError { kind: FixErrorKind::MissingField, field: tags::ExecType });
            },
        };
        if str_eq(et.as_str(), "0") {
            let obj = NewOrderAck::new(&fm)?;
            Ok((bytes_eaten, Message::NewAck(obj)))
        } else if str_eq(et.as_str(), "1") || str_eq(et.as_str(), "2") {
            let obj = Fill::new(&fm)?;
            Ok((bytes_eaten, Message::Fill(obj)))
        } else {
            Err(FixError { kind: FixErrorKind::MissingField, field: tags::ExecType })
        }
    } else {
        Err(FixError { kind: FixErrorKind::UnexpectedMessage, field: 0 })
    }
}

/// In the encoding of a field list — none of whose tags is the
/// checksum tag — followed by checksum-trailer text, the first
/// checksum-field marker sits exactly at the list's final separator.
pub proof fn lemma_first_marker(fs: Seq<(int, Seq<char>)>, t: Seq<char>)
    requires
        fields_ok(fs),
        fs.len() > 0,
        forall|i: int| 0 <= i < fs.len() ==> (#[trigger] fs[i]).0 != 10,
        t.len() >= 3,
        t[0] == '1',
        t[1] == '0',
        t[2] == '=',
        forall|k: int| !marker_at(t, k),
    ensures
        find_marker(enc_fields(fs) + t) == enc_fields(fs).len() - 1,
    decreases fs.len(),
{
    let f0 = fs[0];
    lemma_dec_str(f0.0);
    let d0 = dec_str(f0.0);
    let seg0 = d0 + seq!['='] + f0.1;
    let e0 = enc_field(f0.0, f0.1);
    assert(e0 =~= seg0 + seq!['\x01']);
    let s = enc_fields(fs) + t;
    assert forall|k: int| 0 <= k < seg0.len() implies seg0[k] != '\x01' by {
        if k < d0.len() {
            assert(seg0[k] == d0[k]);
            assert(is_digit(d0[k]));
        } else if k > d0.len() {
            assert(seg0[k] == f0.1[k - d0.len() - 1]);
            assert(no_soh(f0.1));
        }
    }
    let q = seg0.len() as int;
    if fs.len() == 1 {
        assert(fs.drop_first() =~= Seq::<(int, Seq<char>)>::empty());
        assert(enc_fields(fs.drop_first()) =~= Seq::<char>::empty());
        assert(s =~= seg0 + seq!['\x01'] + t);
        assert(s[q] == '\x01');
        assert(s[q + 1] == t[0]);
        assert(s[q + 2] == t[1]);
        assert(s[q + 3] == t[2]);
        assert(marker_at(s, q));
        assert forall|j: int| 0 <= j < q implies !marker_at(s, j) by {
            assert(s[j] == seg0[j]);
        }
        lemma_find_marker_unique(s, q);
        assert(enc_fields(fs).len() == seg0.len() + 1);
    } else {
        let rest = fs.drop_first();
        assert forall|i: int|
            0 <= i < rest.len() implies 0 <= (#[trigger] rest[i]).0 <= i32::MAX && no_soh(
            rest[i].1,
        ) && rest[i].0 != 10 by {
            assert(rest[i] == fs[i + 1]);
        }
        lemma_first_marker(rest, t);
        let s2 = enc_fields(rest) + t;
        assert(s =~= e0 + s2);
        let p2 = enc_fields(rest).len() - 1;
        let p = e0.len() + p2;
        lemma_find_marker(s2);
        assert(marker_at(s2, p2));
        assert forall|j: int|
            e0.len() <= j && j + 4 <= s.len() implies marker_at(s, j) == marker_at(
            s2,
            j - e0.len(),
        ) by {
            assert(s[j] == s2[j - e0.len()]);
            assert(s[j + 1] == s2[j - e0.len() + 1]);
            assert(s[j + 2] == s2[j - e0.len() + 2]);
            assert(s[j + 3] == s2[j - e0.len() + 3]);
        }
        assert(marker_at(s, p));
        // the separator ending the first field is followed by the next
        // field's tag, which is not the checksum tag
        let f1 = rest[0];
        lemma_dec_str(f1.0);
        let d1 = dec_str(f1.0);
        let e1 = enc_field(f1.0, f1.1);
        assert(enc_fields(rest) == e1 + enc_fields(rest.drop_first()));
        assert(e1 =~= d1 + seq!['='] + f1.1 + seq!['\x01']);
        assert(e1.len() >= d1.len() + 2);
        assert(s[q] == '\x01');
        assert(s[q + 1] == s2[0]);
        assert(s[q + 2] == s2[1]);
        assert(s[q + 3] == s2[2]);
        assert(!marker_at(s, q)) by {
            if d1.len() == 1 {
                assert(s2[1] == e1[1]);
                assert(e1[1] == '=');
            } else if d1.len() == 2 {
                if s2[0] == '1' && s2[1] == '0' {
                    assert(e1[0] == d1[0] && e1[1] == d1[1]);
                    assert(d1[0] == '1' && d1[1] == '0');
                    assert(d1.drop_last() =~= seq![d1[0]]);
                    assert(seq![d1[0]].drop_last() =~= Seq::<char>::empty());
                    assert(digits_val(Seq::<char>::empty()) == 0);
                    assert(digits_val(seq![d1[0]]) == digit_val(d1[0]));
                    assert(digits_val(d1.drop_last()) == digit_val(d1[0]));
                    assert(d1.last() == d1[1]);
                    assert(digits_val(d1) == digits_val(d1.drop_last()) * 10 + digit_val(
                        d1.last(),
                    ));
                    assert(digits_val(d1) == 10);
                    assert(f1.0 == 10);
                    assert(false);
                }
            } else {
                assert(s2[2] == e1[2]);
                assert(e1[2] == d1[2]);
                assert(is_digit(d1[2]));
            }
        }
        assert forall|j: int| 0 <= j < p implies !marker_at(s, j) by {
            if j < q {
                assert(s[j] == seg0[j]);
            } else if j == q {
            } else {
                assert(!marker_at(s2, j - e0.len()));
                if j + 4 <= s.len() {
                } else {
                }
            }
        }
        lemma_find_marker_unique(s, p);
        assert(enc_fields(fs).len() - 1 == p);
    }
}


/// A serialized frame frames at its own end: as long as none of the
/// body fields carries the checksum tag, the first checksum-field
/// marker the framer finds is the frame's own trailer, and the whole
/// frame is consumed.
pub proof fn lemma_frame_end_of_serialized(
    mt: Seq<char>,
    snd: Seq<char>,
    tgt: Seq<char>,
    seqno: u32,
    entries: Seq<(int, Seq<char>)>,
    ts: Seq<char>,
)
    requires
        no_soh(mt),
        no_soh(snd),
        no_soh(tgt),
        ts_wf(ts),
        forall|i: int|
            0 <= i < entries.len() ==> 0 <= (#[trigger] entries[i]).0 <= i32::MAX && no_soh(
                entries[i].1,
            ) && entries[i].0 != 10,
    ensures
        spec_frame_end(spec_frame(mt, snd, tgt, seqno, entries, ts)) == Some(
            spec_frame(mt, snd, tgt, seqno, entries, ts).len() as int,
        ),
{
    let body = spec_body(entries);
    let bl = encode_utf8(body).len() as int;
    let head = spec_head(mt, snd, tgt, seqno, ts, bl);
    let ck = spec_checksum(encode_utf8(head + body));
    let pad3 = pad_str(ck, 3);
    let hfs = head_fields(mt, snd, tgt, seqno, ts, bl);
    let bfs = body_fields(entries);
    let hb = hfs + bfs;
    let frame = spec_frame(mt, snd, tgt, seqno, entries, ts);
    let t = enc_field(10, pad3);
    lemma_spec_head_is_enc(mt, snd, tgt, seqno, ts, bl);
    crate::fields::lemma_enc_fields_concat(hfs, bfs);
    assert(frame =~= enc_fields(hb) + t);

    // the trailer text begins with the checksum tag and holds no
    // marker of its own
    assert(0 <= ck < 256);
    lemma_dec_str_len(ck);
    lemma_pad_str(ck, 3);
    assert(dec_str(1) =~= seq!['1']);
    assert(dec_str(10) =~= seq!['1', '0']);
    assert(pad3.len() == 3);
    assert(t =~= seq!['1', '0', '='] + pad3 + seq!['\x01']);
    assert(t.len() == 7);
    assert forall|k: int| !marker_at(t, k) by {
        if 0 <= k && k + 4 <= t.len() {
            if k == 3 {
                assert(t[k] == pad3[0]);
                assert(is_digit(pad3[0]));
            }
            assert(t[k] != '\x01');
        }
    }

    // the header and body fields are well-formed and none carries the
    // checksum tag
    lemma_frame_fields_ok(mt, snd, tgt, seqno, entries, ts);
    let all = frame_fields(mt, snd, tgt, seqno, entries, ts);
    assert(all =~= hb + seq![(10int, pad3)]);
    assert forall|i: int|
        0 <= i < hb.len() implies 0 <= (#[trigger] hb[i]).0 <= i32::MAX && no_soh(hb[i].1)
            && hb[i].0 != 10 by {
        assert(hb[i] == all[i]);
        if i >= 7 {
            assert(hb[i] == bfs[i - 7]);
            lemma_filter_element(entries, |e: (int, Seq<char>)| is_body_tag(e.0), i - 7);
            let j = choose|j: int| 0 <= j < entries.len() && entries[j] == bfs[i - 7];
            assert(entries[j].0 != 10);
        } else {
            assert(hb[i] == hfs[i]);
        }
    }
    assert(hb.len() > 0);
    lemma_first_marker(hb, t);
    assert(find_marker(frame) == enc_fields(hb).len() - 1);
    assert(frame.len() == enc_fields(hb).len() + 7);
}

/// The login round trip: a serialized login frame parses back to the
/// login it was built from — same sender, target and sequence number
/// — consuming the whole frame.
pub proof fn lemma_parse_serialized_login(snd: Seq<char>, tgt: Seq<char>, seqno: u32, ts: Seq<char>)
    requires
        no_soh(snd),
        no_soh(tgt),
        ts_wf(ts),
    ensures
        ({
            let frame = spec_frame(seq!['A'], snd, tgt, seqno, Seq::<(int, Seq<char>)>::empty(), ts);
            spec_parse(frame) matches Ok(p) && p.0 == encode_utf8(frame).len() && p.1
                == SpecMessage::Login(
                SpecLogin { sendercompid: snd, targetcompid: tgt, seqno: seqno },
            )
        }),
{
    let entries = Seq::<(int, Seq<char>)>::empty();
    let mt = seq!['A'];
    let frame = spec_frame(mt, snd, tgt, seqno, entries, ts);
    lemma_frame_end_of_serialized(mt, snd, tgt, seqno, entries, ts);
    assert(frame.subrange(0, frame.len() as int) =~= frame);
    lemma_frame_extracts(mt, snd, tgt, seqno, entries, ts);
    let ff = frame_fields(mt, snd, tgt, seqno, entries, ts);
    let m = crate::fields::seq_to_map(ff);

    // an empty table has no body fields, so sender and target stand
    // alone at their header positions
    reveal(Seq::filter);
    assert(body_fields(entries) =~= Seq::<(int, Seq<char>)>::empty());
    let bl = encode_utf8(spec_body(entries)).len() as int;
    assert(ff =~= head_fields(mt, snd, tgt, seqno, ts, bl) + seq![
        (
            10int,
            pad_str(
                spec_checksum(
                    encode_utf8(spec_head(mt, snd, tgt, seqno, ts, bl) + spec_body(entries)),
                ),
                3,
            ),
        ),
    ]);
    assert(ff.len() == 8);
    assert(ff[4] == (49int, snd));
    assert(ff[5] == (56int, tgt));
    assert(forall|j: int| 4 < j < ff.len() ==> (#[trigger] ff[j]).0 != 49);
    assert(forall|j: int| 5 < j < ff.len() ==> (#[trigger] ff[j]).0 != 56);
    crate::fields::lemma_seq_to_map_at(ff, 4);
    crate::fields::lemma_seq_to_map_at(ff, 5);
    assert(m.contains_key(49) && m[49] == snd);
    assert(m.contains_key(56) && m[56] == tgt);

    // the padded sequence number reads back to itself
    lemma_pad_str(seqno as int, 7);
    assert(spec_parse_u32(pad_str(seqno as int, 7)) == Some(seqno));

    assert(m[35] == mt);
    assert(spec_login(m) == Ok::<SpecLogin, FixError>(
        SpecLogin { sendercompid: snd, targetcompid: tgt, seqno: seqno },
    ));
}


/// The acknowledgement round trip: a serialized new-order
/// acknowledgement frame parses back to a new-order acknowledgement,
/// consuming the whole frame.
pub proof fn lemma_parse_serialized_new_order_ack(
    snd: Seq<char>,
    tgt: Seq<char>,
    seqno: u32,
    clordid: Seq<char>,
    orderid: Seq<char>,
    symbol: Seq<char>,
    price: i32,
    qty: i32,
    side: char,
    ts: Seq<char>,
)
    requires
        no_soh(snd),
        no_soh(tgt),
        no_soh(clordid),
        no_soh(orderid),
        no_soh(symbol),
        side != '\x01',
        ts_wf(ts),
    ensures
        ({
            let entries = new_order_ack_fields(clordid, orderid, symbol, price, qty, side);
            let frame = spec_frame(seq!['8'], snd, tgt, seqno, entries, ts);
            spec_parse(frame) matches Ok(p) && p.0 == encode_utf8(frame).len() && p.1
                == SpecMessage::NewAck
        }),
{
    let entries = new_order_ack_fields(clordid, orderid, symbol, price, qty, side);
    let mt = seq!['8'];
    let frame = spec_frame(mt, snd, tgt, seqno, entries, ts);

    // every field of the table is a well-formed body field
    assert forall|k: int| 0 <= k < int_str(qty as int).len() implies int_str(qty as int)[k]
        != '\x01' by {
        let v = int_str(qty as int);
        if qty < 0 {
            lemma_dec_str(-(qty as int));
            if k > 0 {
                assert(v[k] == dec_str(-(qty as int))[k - 1]);
                assert(is_digit(v[k]));
            }
        } else {
            lemma_dec_str(qty as int);
            assert(is_digit(v[k]));
        }
    }
    assert forall|k: int|
        0 <= k < crate::price::spec_price_str(price as int).len() implies crate::price::spec_price_str(
        price as int,
    )[k] != '\x01' by {
        let v = crate::price::spec_price_str(price as int);
        let mag = if price < 0 {
            -(price as int)
        } else {
            price as int
        };
        let ms = crate::price::spec_price_mag_str(mag);
        vstd::arithmetic::div_mod::lemma_fundamental_div_mod(mag, 10000);
        lemma_dec_str(mag / 10000);
        lemma_pad_str(mag % 10000, 4);
        let j = if price < 0 {
            k - 1
        } else {
            k
        };
        if price < 0 && k == 0 {
        } else {
            assert(v[k] == ms[j]);
            if j < dec_str(mag / 10000).len() {
                assert(ms[j] == dec_str(mag / 10000)[j]);
                assert(is_digit(ms[j]));
            } else if j == dec_str(mag / 10000).len() {
                assert(ms[j] == '.');
            } else {
                assert(ms[j] == pad_str(mag % 10000, 4)[j - dec_str(mag / 10000).len() - 1]);
                assert(is_digit(ms[j]));
            }
        }
    }
    assert forall|i: int|
        0 <= i < entries.len() implies 0 <= (#[trigger] entries[i]).0 <= i32::MAX && no_soh(
        entries[i].1,
    ) && entries[i].0 != 10 && is_body_tag(entries[i].0) by {
        if i == 6 {
            assert(entries[i].1 =~= seq![side]);
        }
    }

    lemma_frame_end_of_serialized(mt, snd, tgt, seqno, entries, ts);
    assert(frame.subrange(0, frame.len() as int) =~= frame);
    lemma_frame_extracts(mt, snd, tgt, seqno, entries, ts);
    let ff = frame_fields(mt, snd, tgt, seqno, entries, ts);
    let m = crate::fields::seq_to_map(ff);

    // the whole table serializes as the body, and its execution-type
    // entry is the last field before the trailer
    lemma_filter_all(entries, |e: (int, Seq<char>)| is_body_tag(e.0));
    assert(body_fields(entries) == entries);
    assert(ff.len() == 17);
    assert(ff[15] == entries[8]);
    assert(ff[15] == (150int, seq!['0']));
    assert(ff[16].0 == 10);
    assert(forall|j: int| 15 < j < ff.len() ==> (#[trigger] ff[j]).0 != 150);
    crate::fields::lemma_seq_to_map_at(ff, 15);
    assert(m.contains_key(150) && m[150] == seq!['0']);

    // the message-type code matches no other branch of the table
    assert(m.contains_key(35) && m[35] == mt);
    assert(mt != seq!['A']) by {
        if mt == seq!['A'] {
            assert(mt[0] == 'A');
        }
    }
    assert(mt != seq!['5']) by {
        if mt == seq!['5'] {
            assert(mt[0] == '5');
        }
    }
    assert(mt != seq!['0']) by {
        if mt == seq!['0'] {
            assert(mt[0] == '0');
        }
    }
    assert(mt != seq!['2']) by {
        if mt == seq!['2'] {
            assert(mt[0] == '2');
        }
    }
    assert(mt != seq!['4']) by {
        if mt == seq!['4'] {
            assert(mt[0] == '4');
        }
    }
    assert(mt != seq!['D']) by {
        if mt == seq!['D'] {
            assert(mt[0] == 'D');
        }
    }
    assert(mt != seq!['F']) by {
        if mt == seq!['F'] {
            assert(mt[0] == 'F');
        }
    }
    assert(spec_dispatch(m) == Ok::<SpecMessage, FixError>(SpecMessage::NewAck));
}

} // verus!
