//! The fingerprint function: a deterministic 64-bit key derived from a
//! document's full attribute triple.
//!
//! The key is a Fowler–Noll–Vo (FNV-1a) fold over the UTF-8 bytes of the
//! three fields, with each field's byte length folded in after its bytes so
//! that the three fields are framed unambiguously.

use vstd::prelude::*;
use crate::{Document, DocModel};

verus! {

pub const FNV_OFFSET: u64 = 0xcbf29ce484222325;

pub const FNV_PRIME: u64 = 0x100000001b3;

/// One FNV-1a step: fold one byte into the running state.
pub open spec fn fp_step(h: u64, b: u64) -> u64 {
    (h ^ b).wrapping_mul(FNV_PRIME)
}

/// Fold a byte sequence into the running state, front to back.
pub open spec fn fp_bytes(h: u64, s: Seq<u8>) -> u64
    decreases s.len(),
{
    if s.len() == 0 {
        h
    } else {
        fp_bytes(fp_step(h, s[0] as u64), s.drop_first())
    }
}

/// Fold one string field: its UTF-8 bytes, then their count.
pub open spec fn fp_field(h: u64, s: Seq<char>) -> u64 {
    fp_step(fp_bytes(h, vstd::utf8::encode_utf8(s)), vstd::utf8::encode_utf8(s).len() as u64)
}

/// The fingerprint of a document: all three fields folded in order.
pub open spec fn fp_doc(d: DocModel) -> u64 {
    fp_field(fp_field(fp_field(FNV_OFFSET, d.id), d.title), d.url)
}

proof fn lemma_fp_bytes_snoc(h: u64, s: Seq<u8>, b: u8)
    ensures
        fp_bytes(h, s.push(b)) == fp_step(fp_bytes(h, s), b as u64),
    decreases s.len(),
{
    if s.len() == 0 {
        assert(s.push(b)[0] == b);
        assert(s.push(b).drop_first() =~= Seq::<u8>::empty());
        assert(fp_bytes(h, s.push(b)) == fp_bytes(fp_step(h, b as u64), Seq::<u8>::empty()));
    } else {
        assert(s.push(b)[0] == s[0]);
        assert(s.push(b).drop_first() =~= s.drop_first().push(b));
        lemma_fp_bytes_snoc(fp_step(h, s[0] as u64), s.drop_first(), b);
    }
}

/// Fold one string field into the running state.
fn hash_field(h: u64, s: &String) -> (r: u64)
    ensures
        r == fp_field(h, s@),
{
    let bytes: &[u8] = s.as_str().as_bytes();
    let n: usize = bytes.len();
    let mut acc: u64 = h;
    let mut i: usize = 0;
    while i < n
        invariant
            n == vstd::utf8::encode_utf8(s@).len(),
            bytes@ == vstd::utf8::encode_utf8(s@),
            i <= n,
            acc == fp_bytes(h, bytes@.take(i as int)),
        decreases n - i,
    {
        let b: u8 = bytes[i];
        proof {
            assert(bytes@.take(i + 1) =~= bytes@.take(i as int).push(b));
            lemma_fp_bytes_snoc(h, bytes@.take(i as int), b);
        }
        acc = (acc ^ (b as u64)).wrapping_mul(FNV_PRIME);
        i = i + 1;
    }
    proof {
        assert(bytes@.take(n as int) =~= bytes@);
    }
    // usize is at most 64 bits wide, so the length cast does not truncate.
    (acc ^ (n as u64)).wrapping_mul(FNV_PRIME)
}

/// The deterministic 64-bit key that joins the vector store and the
/// document table.
pub fn fingerprint(d: &Document) -> (r: u64)
    ensures
        r == fp_doc(d@),
{
    let h1 = hash_field(FNV_OFFSET, &d.id);
    let h2 = hash_field(h1, &d.title);
    hash_field(h2, &d.url)
}

} // verus!
