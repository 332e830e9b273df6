//! The field mapping and the field extractor.
//!
//! A `FieldMap` maps integer tags to text values. Entries are kept
//! sorted by tag with no duplicates, so that serialization emits body
//! fields in a fixed, documented order (ascending tag number) and two
//! maps holding the same logical fields always produce byte-identical
//! wire output. Inserting an already-present tag replaces its value:
//! the last write wins, as the extractor requires of duplicate tags.

use vstd::prelude::*;

use crate::errors::{FixError, FixErrorKind};
use crate::num::{dec_str, digits_val, find_char, is_digit, is_digits, lemma_dec_str,
    lemma_digits_val_nonneg, lemma_find_char, lemma_find_char_unique, parse_u64};

verus! {

/// A tag-to-value mapping whose entries stay sorted by tag.
#[derive(Debug)]
pub struct FieldMap {
    entries: Vec<(i32, String)>,
}

impl View for FieldMap {
    type V = Seq<(int, Seq<char>)>;

    closed spec fn view(&self) -> Seq<(int, Seq<char>)> {
        Seq::new(self.entries@.len(), |i: int| (self.entries@[i].0 as int, self.entries@[i].1@))
    }
}

/// Entries sorted strictly ascending by tag: each tag occurs once.
pub open spec fn entries_wf(s: Seq<(int, Seq<char>)>) -> bool {
    forall|i: int, j: int| 0 <= i < j < s.len() ==> (#[trigger] s[i]).0 < (#[trigger] s[j]).0
}

/// The mapping an entry sequence denotes; later entries win.
pub open spec fn seq_to_map(s: Seq<(int, Seq<char>)>) -> Map<int, Seq<char>>
    decreases s.len(),
{
    if s.len() == 0 {
        Map::empty()
    } else {
        seq_to_map(s.drop_last()).insert(s.last().0, s.last().1)
    }
}

/// A key is in the denoted mapping exactly when some entry carries it.
pub proof fn lemma_seq_to_map_mem(s: Seq<(int, Seq<char>)>, k: int)
    ensures
        seq_to_map(s).contains_key(k) <==> exists|i: int| 0 <= i < s.len() && (#[trigger] s[i]).0
            == k,
    decreases s.len(),
{
    if s.len() > 0 {
        lemma_seq_to_map_mem(s.drop_last(), k);
        if s.last().0 == k {
            assert(s[s.len() - 1].0 == k);
        } else if seq_to_map(s).contains_key(k) {
            let i = choose|i: int| 0 <= i < s.drop_last().len() && (#[trigger] s.drop_last()[i]).0
                == k;
            assert(s[i].0 == k);
        } else if exists|i: int| 0 <= i < s.len() && (#[trigger] s[i]).0 == k {
            let i = choose|i: int| 0 <= i < s.len() && (#[trigger] s[i]).0 == k;
            assert(s.drop_last()[i].0 == k);
        }
    }
}

/// An entry whose tag does not recur later gives the denoted mapping's
/// value at that tag.
pub proof fn lemma_seq_to_map_at(s: Seq<(int, Seq<char>)>, i: int)
    requires
        0 <= i < s.len(),
        forall|j: int| i < j < s.len() ==> (#[trigger] s[j]).0 != s[i].0,
    ensures
        seq_to_map(s).contains_key(s[i].0),
        seq_to_map(s)[s[i].0] == s[i].1,
    decreases s.len(),
{
    if i == s.len() - 1 {
    } else {
        assert forall|j: int| i < j < s.drop_last().len() implies (#[trigger] s.drop_last()[j]).0
            != s.drop_last()[i].0 by {
            assert(s[j].0 != s[i].0);
        }
        lemma_seq_to_map_at(s.drop_last(), i);
        assert(s[s.len() - 1].0 != s[i].0);
    }
}

/// Splicing an entry into a sequence inserts its pair into the denoted
/// mapping, provided no later entry carries the same tag.
proof fn lemma_seq_to_map_splice(
    a: Seq<(int, Seq<char>)>,
    t: int,
    v: Seq<char>,
    b: Seq<(int, Seq<char>)>,
)
    requires
        forall|j: int| 0 <= j < b.len() ==> (#[trigger] b[j]).0 != t,
    ensures
        seq_to_map(a + seq![(t, v)] + b) == seq_to_map(a + b).insert(t, v),
    decreases b.len(),
{
    if b.len() == 0 {
        assert(a + seq![(t, v)] + b =~= a.push((t, v)));
        assert(a.push((t, v)).drop_last() =~= a);
        assert(a + b =~= a);
    } else {
        let bl = b.last();
        assert(forall|j: int| 0 <= j < b.drop_last().len() ==> (#[trigger] b.drop_last()[j]).0
            != t);
        lemma_seq_to_map_splice(a, t, v, b.drop_last());
        assert((a + seq![(t, v)] + b).drop_last() =~= a + seq![(t, v)] + b.drop_last());
        assert((a + seq![(t, v)] + b).last() == bl);
        assert((a + b).drop_last() =~= a + b.drop_last());
        assert((a + b).last() == bl);
        assert(seq_to_map(a + b.drop_last()).insert(t, v).insert(bl.0, bl.1) =~= seq_to_map(
            a + b.drop_last(),
        ).insert(bl.0, bl.1).insert(t, v));
    }
}

impl FieldMap {
    /// Entries sorted strictly ascending by tag.
    pub open spec fn wf(&self) -> bool {
        entries_wf(self@)
    }

    /// The mapping this value denotes.
    pub open spec fn spec_map(&self) -> Map<int, Seq<char>> {
        seq_to_map(self@)
    }

    /// Creates an empty mapping.
    pub fn new() -> (r: FieldMap)
        ensures
            r@ =~= Seq::<(int, Seq<char>)>::empty(),
            r.wf(),
            r.spec_map() =~= Map::<int, Seq<char>>::empty(),
    {
        FieldMap { entries: Vec::new() }
    }

    /// The number of entries held.
    pub fn len(&self) -> (r: usize)
        ensures
            r == self@.len(),
    {
        self.entries.len()
    }

    /// The entries, sorted ascending by tag.
    pub fn entries(&self) -> (r: &Vec<(i32, String)>)
        ensures
            r@.len() == self@.len(),
            forall|i: int| 0 <= i < r@.len() ==> self@[i] == ((#[trigger] r@[i]).0 as int,
                r@[i].1@),
    {
        &self.entries
    }

    /// Builds a mapping from entries already sorted strictly ascending
    /// by tag.
    pub fn from_entries(entries: Vec<(i32, String)>) -> (r: FieldMap)
        requires
            forall|i: int, j: int| 0 <= i < j < entries@.len() ==> (#[trigger] entries@[i]).0 < (
            #[trigger] entries@[j]).0,
        ensures
            r.wf(),
            r@.len() == entries@.len(),
            forall|i: int| 0 <= i < entries@.len() ==> r@[i] == ((#[trigger] entries@[i]).0 as int,
                entries@[i].1@),
    {
        FieldMap { entries }
    }

    /// Looks a tag up.
    pub fn get(&self, tag: i32) -> (r: Option<&String>)
        requires
            self.wf(),
        ensures
            match r {
                Some(s) => self.spec_map().contains_key(tag as int) && s@ == self.spec_map().index(
                    tag as int,
                ),
                None => !self.spec_map().contains_key(tag as int),
            },
    {
        let n = self.entries.len();
        let mut i: usize = 0;
        while i < n
            invariant
                0 <= i <= n,
                n == self@.len(),
                self.wf(),
                forall|j: int| 0 <= j < i ==> (#[trigger] self@[j]).0 != tag as int,
            decreases n - i,
        {
            if self.entries[i].0 == tag {
                proof {
                    lemma_seq_to_map_at(self@, i as int);
                }
                return Some(&self.entries[i].1);
            }
            i = i + 1;
        }
        proof {
            lemma_seq_to_map_mem(self@, tag as int);
        }
        None
    }

    /// Inserts a value under a tag; an existing value under the same
    /// tag is replaced, so the last write wins.
    pub fn insert(&mut self, tag: i32, value: String)
        requires
            old(self).wf(),
        ensures
            final(self).wf(),
            final(self).spec_map() == old(self).spec_map().insert(tag as int, value@),
            forall|i: int|
                0 <= i < final(self)@.len() ==> (#[trigger] final(self)@[i]).0 == tag as int
                    || old(self)@.contains(final(self)@[i]),
    {
        let n = self.entries.len();
        let mut idx: usize = 0;
        while idx < n && self.entries[idx].0 < tag
            invariant
                0 <= idx <= n,
                n == self@.len(),
                self.wf(),
                forall|j: int| 0 <= j < idx ==> (#[trigger] self@[j]).0 < tag as int,
            decreases n - idx,
        {
            idx = idx + 1;
        }
        let ghost pre = self@;
        let ghost t = tag as int;
        let ghost a = pre.subrange(0, idx as int);
        if idx < n && self.entries[idx].0 == tag {
            let ghost b = pre.subrange(idx + 1, pre.len() as int);
            self.entries.remove(idx);
            self.entries.insert(idx, (tag, value));
            proof {
                assert(self@ =~= a + seq![(t, value@)] + b);
                assert(pre =~= a + seq![(t, pre[idx as int].1)] + b);
                assert(forall|j: int| 0 <= j < b.len() ==> (#[trigger] b[j]).0 != t);
                lemma_seq_to_map_splice(a, t, value@, b);
                lemma_seq_to_map_splice(a, t, pre[idx as int].1, b);
                assert(seq_to_map(a + b).insert(t, pre[idx as int].1).insert(t, value@)
                    =~= seq_to_map(a + b).insert(t, value@));
                assert forall|i: int, j: int| 0 <= i < j < self@.len() implies (
                #[trigger] self@[i]).0 < (#[trigger] self@[j]).0 by {
                    assert(pre[i].0 < pre[j].0);
                }
                assert forall|i: int|
                    0 <= i < self@.len() && (#[trigger] self@[i]).0 != t implies pre.contains(
                    self@[i],
                ) by {
                    assert(self@[i] == pre[i]);
                }
            }
        } else {
            let ghost b = pre.subrange(idx as int, pre.len() as int);
            self.entries.insert(idx, (tag, value));
            proof {
                assert(self@ =~= a + seq![(t, value@)] + b);
                assert(pre =~= a + b);
                assert(forall|j: int| 0 <= j < b.len() ==> (#[trigger] b[j]).0 > t);
                lemma_seq_to_map_splice(a, t, value@, b);
                assert forall|i: int, j: int| 0 <= i < j < self@.len() implies (
                #[trigger] self@[i]).0 < (#[trigger] self@[j]).0 by {
                    let s = a + seq![(t, value@)] + b;
                    if j < idx {
                        assert(pre[i].0 < pre[j].0);
                    } else if i > idx {
                        assert(pre[i - 1].0 < pre[j - 1].0);
                    } else if i < idx && j > idx {
                        assert(pre[i].0 < pre[j - 1].0);
                    }
                }
                assert forall|i: int|
                    0 <= i < self@.len() && (#[trigger] self@[i]).0 != t implies pre.contains(
                    self@[i],
                ) by {
                    if i < idx {
                        assert(self@[i] == pre[i]);
                    } else {
                        assert(self@[i] == pre[i - 1]);
                    }
                }
            }
        }
    }
}

/// The separator-split of a buffer: the segments between occurrences
/// of the separator byte, including one (possibly empty) segment after
/// the last occurrence.
pub open spec fn split_soh(s: Seq<char>) -> Seq<Seq<char>>
    decreases s.len(),
{
    let i = find_char(s, '\x01');
    if 0 <= i < s.len() {
        seq![s.subrange(0, i)] + split_soh(s.subrange(i + 1, s.len() as int))
    } else {
        seq![s]
    }
}

/// Discards empty trailing segments.
pub open spec fn trim_trailing(ss: Seq<Seq<char>>) -> Seq<Seq<char>>
    decreases ss.len(),
{
    if ss.len() > 0 && ss.last().len() == 0 {
        trim_trailing(ss.drop_last())
    } else {
        ss
    }
}

/// Splits one segment at its first `=` into a tag and a value: `Some`
/// exactly when an `=` is present and the text left of it is a
/// non-negative integer that fits the tag type.
pub open spec fn parse_seg(seg: Seq<char>) -> Option<(int, Seq<char>)> {
    let e = find_char(seg, '=');
    if 0 <= e < seg.len() {
        let t = seg.subrange(0, e);
        if is_digits(t) && digits_val(t) <= i32::MAX {
            Some((digits_val(t), seg.subrange(e + 1, seg.len() as int)))
        } else {
            None
        }
    } else {
        None
    }
}

/// Every segment of the sequence parses.
pub open spec fn segs_ok(ss: Seq<Seq<char>>) -> bool {
    forall|i: int| 0 <= i < ss.len() ==> parse_seg(#[trigger] ss[i]) is Some
}

/// The mapping the parsed segments denote; later segments win.
pub open spec fn segs_map(ss: Seq<Seq<char>>) -> Map<int, Seq<char>>
    decreases ss.len(),
{
    if ss.len() == 0 {
        Map::empty()
    } else {
        match parse_seg(ss.last()) {
            Some(tv) => segs_map(ss.drop_last()).insert(tv.0, tv.1),
            None => segs_map(ss.drop_last()),
        }
    }
}

/// What field extraction yields on a buffer: the tag-to-value mapping
/// of its separator-delimited segments (empty trailing segments
/// discarded, later duplicates winning), or the parse error when some
/// segment has no `=` or a tag that is not a valid integer.
pub open spec fn spec_extract(s: Seq<char>) -> Result<Map<int, Seq<char>>, FixError> {
    let ss = trim_trailing(split_soh(s));
    if segs_ok(ss) {
        Ok(segs_map(ss))
    } else {
        Err(FixError { kind: FixErrorKind::Parse, field: 0 })
    }
}

/// Parses a delimited buffer into a tag-to-value mapping.
///
/// Splits on the separator byte, discards empty trailing segments, and
/// splits each remaining segment at its first `=`; a segment without
/// `=` or with a non-integer tag fails with the parse error. Duplicate
/// tags keep the last value seen.
pub fn to_fix_hash(string: &str) -> (r: Result<FieldMap, FixError>)
    ensures
        match r {
            Ok(fm) => {
                &&& fm.wf()
                &&& spec_extract(string@) matches Ok(m) && fm.spec_map() == m
                &&& forall|i: int| 0 <= i < fm@.len() ==> (#[trigger] fm@[i]).0 >= 0
            },
            Err(e) => spec_extract(string@) matches Err(e2) && e == e2,
        },
{
    let n = string.unicode_len();
    let ghost s = string@;
    let mut segs: Vec<String> = Vec::new();
    let mut start: usize = 0;
    let mut fin: bool = false;
    proof {
        assert(s.subrange(0, n as int) =~= s);
        assert(segs.deep_view() + split_soh(s) =~= split_soh(s));
    }
    while !fin
        invariant
            n == s.len(),
            s == string@,
            0 <= start <= n,
            !fin ==> split_soh(s) == segs.deep_view() + split_soh(
                s.subrange(start as int, n as int),
            ),
            fin ==> split_soh(s) == segs.deep_view(),
        decreases n - start + (if fin { 0int } else { 1int }),
    {
        let ghost tail = s.subrange(start as int, n as int);
        let mut j: usize = start;
        while j < n && string.get_char(j) != '\x01'
            invariant
                start <= j <= n,
                n == s.len(),
                s == string@,
                forall|k: int| start <= k < j ==> s[k] != '\x01',
            decreases n - j,
        {
            j = j + 1;
        }
        let ghost pre_dv = segs.deep_view();
        if j == n {
            let seg = String::from_str(string.substring_char(start, n));
            segs.push(seg);
            fin = true;
            proof {
                assert forall|k: int| 0 <= k < tail.len() implies tail[k] != '\x01' by {
                    assert(tail[k] == s[start + k]);
                }
                lemma_find_char(tail, '\x01');
                assert(!(0 <= find_char(tail, '\x01') < tail.len()));
                assert(split_soh(tail) =~= seq![tail]);
                assert(segs.deep_view() =~= pre_dv.push(tail));
                assert(pre_dv + seq![tail] =~= pre_dv.push(tail));
                assert(split_soh(s) == segs.deep_view());
            }
        } else {
            let seg = String::from_str(string.substring_char(start, j));
            segs.push(seg);
            proof {
                assert(s[j as int] == '\x01');
                assert(tail[j - start] == '\x01');
                assert forall|k: int| 0 <= k < j - start implies tail[k] != '\x01' by {
                    assert(tail[k] == s[start + k]);
                }
                lemma_find_char_unique(tail, '\x01', j - start);
                assert(split_soh(tail) == seq![tail.subrange(0, j - start)] + split_soh(
                    tail.subrange(j - start + 1, tail.len() as int),
                ));
                assert(tail.subrange(0, j - start) =~= s.subrange(start as int, j as int));
                assert(tail.subrange(j - start + 1, tail.len() as int) =~= s.subrange(
                    j + 1,
                    n as int,
                ));
                assert(segs.deep_view() =~= pre_dv.push(s.subrange(start as int, j as int)));
                assert(pre_dv + (seq![s.subrange(start as int, j as int)] + split_soh(
                    s.subrange(j + 1, n as int),
                )) =~= segs.deep_view() + split_soh(s.subrange(j + 1, n as int)));
            }
            start = j + 1;
        }
    }
    while segs.len() > 0 && segs[segs.len() - 1].as_str().is_empty()
        invariant
            trim_trailing(split_soh(s)) == trim_trailing(segs.deep_view()),
        decreases segs.len(),
    {
        let ghost pre_dv = segs.deep_view();
        segs.pop();
        proof {
            assert(pre_dv.last().len() == 0);
            assert(segs.deep_view() =~= pre_dv.drop_last());
        }
    }
    let ghost ss = segs.deep_view();
    proof {
        if segs.deep_view().len() > 0 {
            assert(segs.deep_view().last() == segs@[segs@.len() - 1]@);
        }
        assert(trim_trailing(ss) == ss);
        assert(ss == trim_trailing(split_soh(s)));
    }
    let mut fm = FieldMap::new();
    let mut i: usize = 0;
    let nsegs = segs.len();
    proof {
        assert(ss.subrange(0, 0) =~= Seq::<Seq<char>>::empty());
    }
    while i < nsegs
        invariant
            0 <= i <= nsegs,
            nsegs == segs@.len(),
            ss == segs.deep_view(),
            ss == trim_trailing(split_soh(s)),
            s == string@,
            forall|k: int| 0 <= k < i ==> parse_seg(#[trigger] ss[k]) is Some,
            fm.wf(),
            fm.spec_map() == segs_map(ss.subrange(0, i as int)),
            forall|k: int| 0 <= k < fm@.len() ==> (#[trigger] fm@[k]).0 >= 0,
        decreases nsegs - i,
    {
        let seg: &String = &segs[i];
        let m = seg.as_str().unicode_len();
        let mut j: usize = 0;
        while j < m && seg.as_str().get_char(j) != '='
            invariant
                0 <= j <= m,
                m == seg@.len(),
                forall|k: int| 0 <= k < j ==> seg@[k] != '=',
            decreases m - j,
        {
            j = j + 1;
        }
        proof {
            assert(ss[i as int] == seg@);
        }
        if j == m {
            proof {
                lemma_find_char(seg@, '=');
                assert(parse_seg(ss[i as int]) is None);
                assert(!segs_ok(ss));
            }
            return Err(FixError { kind: FixErrorKind::Parse, field: 0 });
        }
        proof {
            lemma_find_char_unique(seg@, '=', j as int);
        }
        let tag_s = seg.as_str().substring_char(0, j);
        let val_s = seg.as_str().substring_char(j + 1, m);
        let ghost t = seg@.subrange(0, j as int);
        proof {
            assert(tag_s@ == t);
            if is_digits(t) {
                lemma_digits_val_nonneg(t);
            }
        }
        let t_opt = parse_u64(tag_s);
        let mut tag: i32 = 0;
        let mut tag_ok: bool = false;
        match t_opt {
            Some(v) => {
                if v <= 2147483647u64 {
                    tag = v as i32;
                    tag_ok = true;
                    proof {
                        assert(is_digits(t) && digits_val(t) == tag as int);
                    }
                } else {
                    proof {
                        if is_digits(t) {
                            assert(digits_val(t) == v as int);
                            assert(digits_val(t) > i32::MAX);
                        }
                    }
                }
            },
            None => {
                proof {
                    if is_digits(t) {
                        assert(digits_val(t) > u64::MAX);
                    }
                }
            },
        }
        if !tag_ok {
            proof {
                assert(!(is_digits(t) && digits_val(t) <= i32::MAX));
                assert(parse_seg(ss[i as int]) is None);
                assert(!segs_ok(ss));
            }
            return Err(FixError { kind: FixErrorKind::Parse, field: 0 });
        }
        let ghost fm_pre = fm@;
        fm.insert(tag, String::from_str(val_s));
        proof {
            assert(parse_seg(ss[i as int]) == Some((tag as int, val_s@)));
            let cur = ss.subrange(0, i + 1 as int);
            assert(cur.drop_last() =~= ss.subrange(0, i as int));
            assert(cur.last() == ss[i as int]);
            assert forall|k: int| 0 <= k < fm@.len() implies (#[trigger] fm@[k]).0 >= 0 by {
                if fm@[k].0 != tag as int {
                    assert(fm_pre.contains(fm@[k]));
                    let j = choose|j: int| 0 <= j < fm_pre.len() && fm_pre[j] == fm@[k];
                    assert(fm_pre[j].0 >= 0);
                }
            }
        }
        i = i + 1;
    }
    proof {
        assert(ss.subrange(0, nsegs as int) =~= ss);
    }
    Ok(fm)
}

/// One encoded field: the tag in decimal, `=`, the value, and the
/// trailing separator.
pub open spec fn enc_field(t: int, v: Seq<char>) -> Seq<char> {
    dec_str(t) + seq!['='] + v + seq!['\x01']
}

/// The encoding of a sequence of fields, in order.
pub open spec fn enc_fields(fs: Seq<(int, Seq<char>)>) -> Seq<char>
    decreases fs.len(),
{
    if fs.len() == 0 {
        Seq::empty()
    } else {
        enc_field(fs[0].0, fs[0].1) + enc_fields(fs.drop_first())
    }
}

/// The text contains no separator byte.
pub open spec fn no_soh(v: Seq<char>) -> bool {
    forall|i: int| 0 <= i < v.len() ==> v[i] != '\x01'
}

/// Each field has a tag the tag type can hold and a value free of the
/// separator byte: what a well-formed frame requires of its fields.
pub open spec fn fields_ok(fs: Seq<(int, Seq<char>)>) -> bool {
    forall|i: int|
        0 <= i < fs.len() ==> 0 <= (#[trigger] fs[i]).0 <= i32::MAX && no_soh(fs[i].1)
}

/// Field encodings concatenate.
pub proof fn lemma_enc_fields_concat(a: Seq<(int, Seq<char>)>, b: Seq<(int, Seq<char>)>)
    ensures
        enc_fields(a + b) == enc_fields(a) + enc_fields(b),
    decreases a.len(),
{
    if a.len() == 0 {
        assert(a + b =~= b);
        assert(enc_fields(a) + enc_fields(b) =~= enc_fields(b));
    } else {
        assert((a + b).drop_first() =~= a.drop_first() + b);
        assert((a + b)[0] == a[0]);
        lemma_enc_fields_concat(a.drop_first(), b);
        assert(enc_field(a[0].0, a[0].1) + (enc_fields(a.drop_first()) + enc_fields(b))
            =~= (enc_field(a[0].0, a[0].1) + enc_fields(a.drop_first())) + enc_fields(b));
    }
}

/// A segment carrying a canonically rendered tag, `=` and a value
/// parses back to that tag and value.
proof fn lemma_parse_enc_seg(t: int, v: Seq<char>)
    requires
        0 <= t <= i32::MAX,
    ensures
        parse_seg(dec_str(t) + seq!['='] + v) == Some((t, v)),
{
    lemma_dec_str(t);
    let seg = dec_str(t) + seq!['='] + v;
    let l = dec_str(t).len() as int;
    assert(seg[l] == '=');
    assert forall|k: int| 0 <= k < l implies seg[k] != '=' by {
        assert(seg[k] == dec_str(t)[k]);
        assert(is_digit(dec_str(t)[k]));
    }
    lemma_find_char_unique(seg, '=', l);
    assert(seg.subrange(0, l) =~= dec_str(t));
    assert(seg.subrange(l + 1, seg.len() as int) =~= v);
}

/// The separator-split of an encoded field sequence: one segment per
/// field, in order, and one empty trailing segment.
proof fn lemma_split_soh_enc(fs: Seq<(int, Seq<char>)>)
    requires
        fields_ok(fs),
    ensures
        split_soh(enc_fields(fs)) == Seq::new(
            fs.len(),
            |i: int| dec_str(fs[i].0) + seq!['='] + fs[i].1,
        ).push(Seq::<char>::empty()),
    decreases fs.len(),
{
    if fs.len() == 0 {
        assert(enc_fields(fs) =~= Seq::<char>::empty());
        assert(split_soh(Seq::<char>::empty()) =~= seq![Seq::<char>::empty()]);
        assert(Seq::new(0nat, |i: int| dec_str(fs[i].0) + seq!['='] + fs[i].1).push(
            Seq::<char>::empty(),
        ) =~= seq![Seq::<char>::empty()]);
    } else {
        let f0 = fs[0];
        let seg0 = dec_str(f0.0) + seq!['='] + f0.1;
        let rest = enc_fields(fs.drop_first());
        let enc = enc_fields(fs);
        let l = seg0.len() as int;
        lemma_dec_str(f0.0);
        assert(enc =~= seg0 + seq!['\x01'] + rest);
        assert(enc[l] == '\x01');
        assert forall|k: int| 0 <= k < l implies enc[k] != '\x01' by {
            assert(enc[k] == seg0[k]);
            if k < dec_str(f0.0).len() {
                assert(seg0[k] == dec_str(f0.0)[k]);
                assert(is_digit(dec_str(f0.0)[k]));
            } else if k == dec_str(f0.0).len() {
                assert(seg0[k] == '=');
            } else {
                assert(seg0[k] == f0.1[k - dec_str(f0.0).len() - 1]);
                assert(no_soh(f0.1));
            }
        }
        lemma_find_char_unique(enc, '\x01', l);
        assert(split_soh(enc) == seq![enc.subrange(0, l)] + split_soh(
            enc.subrange(l + 1, enc.len() as int),
        ));
        assert(enc.subrange(0, l) =~= seg0);
        assert(enc.subrange(l + 1, enc.len() as int) =~= rest);
        assert(fields_ok(fs.drop_first())) by {
            assert forall|i: int|
                0 <= i < fs.drop_first().len() implies 0 <= (#[trigger] fs.drop_first()[i]).0
                <= i32::MAX && no_soh(fs.drop_first()[i].1) by {
                assert(fs.drop_first()[i] == fs[i + 1]);
            }
        }
        lemma_split_soh_enc(fs.drop_first());
        assert(seq![seg0] + Seq::new(
            fs.drop_first().len(),
            |i: int| dec_str(fs.drop_first()[i].0) + seq!['='] + fs.drop_first()[i].1,
        ).push(Seq::<char>::empty()) =~= Seq::new(
            fs.len(),
            |i: int| dec_str(fs[i].0) + seq!['='] + fs[i].1,
        ).push(Seq::<char>::empty()));
    }
}

/// Parsed segments that match a field list pointwise denote the same
/// mapping as the field list itself.
proof fn lemma_segs_map_pointwise(ss: Seq<Seq<char>>, fs: Seq<(int, Seq<char>)>)
    requires
        ss.len() == fs.len(),
        forall|i: int| 0 <= i < ss.len() ==> parse_seg(#[trigger] ss[i]) == Some(
            ((#[trigger] fs[i]).0, fs[i].1),
        ),
    ensures
        segs_map(ss) == seq_to_map(fs),
    decreases ss.len(),
{
    if ss.len() > 0 {
        assert(ss.drop_last() =~= ss.subrange(0, ss.len() - 1));
        assert forall|i: int|
            0 <= i < ss.drop_last().len() implies parse_seg(#[trigger] ss.drop_last()[i]) == Some(
            ((#[trigger] fs.drop_last()[i]).0, fs.drop_last()[i].1),
        ) by {
            assert(ss.drop_last()[i] == ss[i]);
            assert(fs.drop_last()[i] == fs[i]);
        }
        lemma_segs_map_pointwise(ss.drop_last(), fs.drop_last());
        assert(parse_seg(ss.last()) == Some((fs.last().0, fs.last().1)));
    }
}

/// Feeding any well-formed encoded field sequence to the extractor
/// succeeds, and yields exactly the mapping the fields denote, with
/// later duplicates winning.
pub proof fn lemma_extract_encoded(fs: Seq<(int, Seq<char>)>)
    requires
        fields_ok(fs),
    ensures
        spec_extract(enc_fields(fs)) matches Ok(m) && m == seq_to_map(fs),
{
    lemma_split_soh_enc(fs);
    let segs = Seq::new(fs.len(), |i: int| dec_str(fs[i].0) + seq!['='] + fs[i].1);
    let all = segs.push(Seq::<char>::empty());
    assert(all.drop_last() =~= segs);
    assert(trim_trailing(all) == trim_trailing(segs));
    if fs.len() > 0 {
        lemma_dec_str(fs[fs.len() - 1].0);
        assert(segs.last().len() > 0);
        assert(trim_trailing(segs) == segs);
    } else {
        assert(trim_trailing(segs) == segs);
    }
    assert forall|i: int| 0 <= i < segs.len() implies parse_seg(#[trigger] segs[i]) == Some(
        ((#[trigger] fs[i]).0, fs[i].1),
    ) by {
        lemma_parse_enc_seg(fs[i].0, fs[i].1);
    }
    lemma_segs_map_pointwise(segs, fs);
    assert(segs_ok(segs));
}

/// For any well-formed frame whose first field is the protocol id and
/// whose later fields do not reuse its tag, extraction yields a
/// mapping whose value at that tag is the protocol id text the frame
/// was built from.
pub proof fn lemma_extract_begin_string(fs: Seq<(int, Seq<char>)>)
    requires
        fields_ok(fs),
        fs.len() > 0,
        fs[0].0 == 8,
        forall|i: int| 1 <= i < fs.len() ==> (#[trigger] fs[i]).0 != 8,
    ensures
        spec_extract(enc_fields(fs)) matches Ok(m) && m.contains_key(8) && m[8] == fs[0].1,
{
    lemma_extract_encoded(fs);
    lemma_seq_to_map_at(fs, 0);
}

/// Looks a required tag up, yielding its value or the missing-field
/// error naming the tag.
pub fn get_or_fail(m: &FieldMap, field: i32) -> (r: Result<String, FixError>)
    requires
        m.wf(),
    ensures
        match r {
            Ok(s) => m.spec_map().contains_key(field as int) && s@ == m.spec_map()[field as int],
            Err(e) => !m.spec_map().contains_key(field as int) && e == (FixError {
                kind: FixErrorKind::MissingField,
                field,
            }),
        },
{
    match m.get(field) {
        Some(s) => Ok(s.clone()),
        None => Err(FixError { kind: FixErrorKind::MissingField, field }),
    }
}

} // verus!
