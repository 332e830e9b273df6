//! The checksum calculator: a byte sum reduced modulo 256, applied to
//! header and body together, both to produce the trailer field when
//! serializing and to validate an inbound frame from outside the codec.

use vstd::prelude::*;

verus! {

/// Sum of the bytes of a sequence.
pub open spec fn sum_bytes(s: Seq<u8>) -> int
    decreases s.len(),
{
    if s.len() == 0 {
        0
    } else {
        sum_bytes(s.drop_last()) + s.last()
    }
}

/// The checksum of a byte sequence: its byte sum modulo 256.
pub open spec fn spec_checksum(s: Seq<u8>) -> int {
    sum_bytes(s) % 256
}

/// Byte sums add over concatenation.
pub proof fn lemma_sum_bytes_concat(a: Seq<u8>, b: Seq<u8>)
    ensures
        sum_bytes(a + b) == sum_bytes(a) + sum_bytes(b),
    decreases b.len(),
{
    if b.len() == 0 {
        assert(a + b =~= a);
    } else {
        assert((a + b).drop_last() =~= a + b.drop_last());
        assert((a + b).last() == b.last());
        lemma_sum_bytes_concat(a, b.drop_last());
    }
}

/// Adds the bytes of `data` into a running checksum kept below 256.
fn add_sum(acc: u8, data: &[u8]) -> (r: u8)
    ensures
        r as int == (acc + sum_bytes(data@)) % 256,
{
    let mut sum: u8 = acc;
    let mut i: usize = 0;
    proof {
        assert(data@.subrange(0, 0) =~= Seq::<u8>::empty());
    }
    while i < data.len()
        invariant
            0 <= i <= data@.len(),
            sum as int == (acc + sum_bytes(data@.subrange(0, i as int))) % 256,
        decreases data@.len() - i,
    {
        let b = data[i];
        proof {
            let pre = data@.subrange(0, i as int);
            let cur = data@.subrange(0, i + 1 as int);
            assert(cur.drop_last() =~= pre);
            assert(cur.last() == data@[i as int]);
            vstd::arithmetic::div_mod::lemma_add_mod_noop(
                acc + sum_bytes(pre),
                b as int,
                256,
            );
            vstd::arithmetic::div_mod::lemma_mod_twice(b as int, 256);
        }
        sum = ((sum as u16 + b as u16) % 256) as u8;
        i = i + 1;
    }
    proof {
        assert(data@.subrange(0, data@.len() as int) =~= data@);
    }
    sum
}

/// Computes the checksum of a header and body taken together: the sum
/// of all their bytes, modulo 256.
pub fn get_checksum(header: &[u8], body: &[u8]) -> (r: u8)
    ensures
        r as int == spec_checksum(header@ + body@),
{
    let h = add_sum(0, header);
    let r = add_sum(h, body);
    proof {
        lemma_sum_bytes_concat(header@, body@);
        vstd::arithmetic::div_mod::lemma_mod_twice(sum_bytes(header@), 256);
        vstd::arithmetic::div_mod::lemma_add_mod_noop(
            sum_bytes(header@),
            sum_bytes(body@),
            256,
        );
    }
    r
}

} // verus!
