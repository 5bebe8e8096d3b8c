//! The two XOR obfuscation passes of the ARF format. Both are self-inverse,
//! which is what makes pack and unpack exact inverses of each other.
use vstd::prelude::*;

verus! {

/// Repeating four-byte XOR over the largest prefix whose length is a multiple
/// of four; the trailing zero to three bytes are left untouched. This pass is
/// applied to filename bytes.
pub open spec fn xor_stride4_spec(s: Seq<u8>, key: Seq<u8>) -> Seq<u8>
    recommends
        key.len() == 4,
{
    Seq::new(s.len(), |i: int| if i < (s.len() / 4) * 4 { s[i] ^ key[i % 4] } else { s[i] })
}

/// Single-byte XOR over the first `min(20, len)` bytes; the rest of the buffer
/// is left untouched. This pass is applied to file payload bytes.
pub open spec fn xor_prefix20_spec(s: Seq<u8>, key: u8) -> Seq<u8> {
    Seq::new(s.len(), |i: int| if i < 20 { s[i] ^ key } else { s[i] })
}

/// In-place stride-4 XOR of `buf` with the four-byte `key`.
pub fn xor_stride4(buf: &mut Vec<u8>, key: [u8; 4])
    ensures
        final(buf)@ == xor_stride4_spec(old(buf)@, key@),
{
    let limit: usize = (buf.len() / 4) * 4;
    let mut i: usize = 0;
    while i < limit
        invariant
            i <= limit,
            limit == (old(buf)@.len() / 4) * 4,
            buf@.len() == old(buf)@.len(),
            limit <= buf@.len(),
            forall|j: int| 0 <= j < i ==> buf@[j] == (old(buf)@[j] ^ key@[j % 4]),
            forall|j: int| i <= j < buf@.len() ==> buf@[j] == old(buf)@[j],
        decreases limit - i,
    {
        let b = buf[i];
        let k = key[i % 4];
        buf.set(i, b ^ k);
        i += 1;
    }
    assert(buf@ =~= xor_stride4_spec(old(buf)@, key@));
}

/// In-place single-byte XOR of the first `min(20, len)` bytes of `buf`.
pub fn xor_prefix20(buf: &mut Vec<u8>, key: u8)
    ensures
        final(buf)@ == xor_prefix20_spec(old(buf)@, key),
{
    let limit: usize = if buf.len() < 20 { buf.len() } else { 20 };
    let mut i: usize = 0;
    while i < limit
        invariant
            i <= limit,
            limit == if old(buf)@.len() < 20 { old(buf)@.len() } else { 20 },
            buf@.len() == old(buf)@.len(),
            limit <= buf@.len(),
            forall|j: int| 0 <= j < i ==> buf@[j] == (old(buf)@[j] ^ key),
            forall|j: int| i <= j < buf@.len() ==> buf@[j] == old(buf)@[j],
        decreases limit - i,
    {
        let b = buf[i];
        buf.set(i, b ^ key);
        i += 1;
    }
    assert(buf@ =~= xor_prefix20_spec(old(buf)@, key));
}

/// Applying the stride-4 pass twice with the same key gives the buffer back.
pub proof fn lemma_xor_stride4_self_inverse(s: Seq<u8>, key: Seq<u8>)
    requires
        key.len() == 4,
    ensures
        xor_stride4_spec(xor_stride4_spec(s, key), key) == s,
{
    let once = xor_stride4_spec(s, key);
    let twice = xor_stride4_spec(once, key);
    assert forall|i: int| 0 <= i < s.len() implies twice[i] == s[i] by {
        if i < (s.len() / 4) * 4 {
            let b = s[i];
            let k = key[i % 4];
            assert((b ^ k) ^ k == b) by (bit_vector);
        }
    }
    assert(twice =~= s);
}

/// Applying the prefix-20 pass twice with the same key gives the buffer back.
pub proof fn lemma_xor_prefix20_self_inverse(s: Seq<u8>, key: u8)
    ensures
        xor_prefix20_spec(xor_prefix20_spec(s, key), key) == s,
{
    let once = xor_prefix20_spec(s, key);
    let twice = xor_prefix20_spec(once, key);
    assert forall|i: int| 0 <= i < s.len() implies twice[i] == s[i] by {
        if i < 20 {
            let b = s[i];
            assert((b ^ key) ^ key == b) by (bit_vector);
        }
    }
    assert(twice =~= s);
}

/// A buffer shorter than four bytes passes through the stride-4 XOR unchanged.
pub proof fn lemma_xor_stride4_short(s: Seq<u8>, key: Seq<u8>)
    requires
        key.len() == 4,
        s.len() < 4,
    ensures
        xor_stride4_spec(s, key) == s,
{
    assert(xor_stride4_spec(s, key) =~= s);
}

/// A buffer no longer than twenty bytes has every byte XOR'd by the prefix-20
/// pass.
pub proof fn lemma_xor_prefix20_short(s: Seq<u8>, key: u8)
    requires
        s.len() <= 20,
    ensures
        forall|i: int| 0 <= i < s.len() ==> xor_prefix20_spec(s, key)[i] == (s[i] ^ key),
{
}

} // verus!
