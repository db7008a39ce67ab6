//! The snapshot codec: a round-trippable encoding of the index as a
//! character blob.
//!
//! The encoding is positional: a four-character version header, then the
//! point store (count, then each point's key and its fixed number of vector
//! words), then the document table (count, then each entry's key and its
//! three length-prefixed strings). Numbers are written big-endian, one byte
//! per character. `deserialize` re-encodes what it parsed and accepts the
//! blob only if the two agree, so every accepted blob is exactly the
//! encoding of the returned index; conversely every parser is proved
//! complete on encoder output, so a snapshot of any well-formed state is
//! owed acceptance and the round trip is lossless.

use vstd::prelude::*;
use crate::engine::{
    Entry, EntryModel, Index, IndexModel, Point, PointModel,
    entries_have_points, has_point_with_key, keys_unique, points_dim_ok, ventries, vpoints,
    wf_model,
};

verus! {

// ---------------------------------------------------------------------------
// The encoding, as spec functions
// ---------------------------------------------------------------------------

pub open spec fn byte_of(n: u64, i: int) -> u64 {
    (n >> (((7 - i) * 8) as u64)) & 0xff
}

/// A 64-bit number as eight big-endian byte characters.
pub open spec fn enc_u64(n: u64) -> Seq<char> {
    Seq::new(8, |i: int| (byte_of(n, i) as u8) as char)
}

pub open spec fn byte32_of(x: u32, i: int) -> u32 {
    (x >> (((3 - i) * 8) as u32)) & 0xff
}

/// A 32-bit word as four big-endian byte characters.
pub open spec fn enc_u32(x: u32) -> Seq<char> {
    Seq::new(4, |i: int| (byte32_of(x, i) as u8) as char)
}

pub open spec fn enc_vec(v: Seq<u32>) -> Seq<char>
    decreases v.len(),
{
    if v.len() == 0 {
        Seq::empty()
    } else {
        enc_vec(v.drop_last()) + enc_u32(v.last())
    }
}

pub open spec fn enc_point(p: PointModel) -> Seq<char> {
    enc_u64(p.key) + enc_vec(p.vector)
}

pub open spec fn enc_points(ps: Seq<PointModel>) -> Seq<char>
    decreases ps.len(),
{
    if ps.len() == 0 {
        Seq::empty()
    } else {
        enc_points(ps.drop_last()) + enc_point(ps.last())
    }
}

/// A string: its character count, then its characters verbatim.
pub open spec fn enc_str(s: Seq<char>) -> Seq<char> {
    enc_u64(s.len() as u64) + s
}

pub open spec fn enc_entry(e: EntryModel) -> Seq<char> {
    enc_u64(e.key) + enc_str(e.doc.id) + enc_str(e.doc.title) + enc_str(e.doc.url)
}

pub open spec fn enc_entries(es: Seq<EntryModel>) -> Seq<char>
    decreases es.len(),
{
    if es.len() == 0 {
        Seq::empty()
    } else {
        enc_entries(es.drop_last()) + enc_entry(es.last())
    }
}

pub open spec fn header() -> Seq<char> {
    seq!['v', 'o', 'y', '1']
}

/// The whole snapshot.
pub open spec fn encode_index(m: IndexModel) -> Seq<char> {
    header() + enc_u64(m.points.len() as u64) + enc_points(m.points)
        + enc_u64(m.entries.len() as u64) + enc_entries(m.entries)
}

// ---------------------------------------------------------------------------
// The encoder
// ---------------------------------------------------------------------------

fn push_u64(out: &mut Vec<char>, n: u64)
    ensures
        final(out)@ == old(out)@ + enc_u64(n),
{
    let ghost start = out@;
    let mut j: usize = 0;
    while j < 8
        invariant
            j <= 8,
            out@ == start + enc_u64(n).take(j as int),
        decreases 8 - j,
    {
        let shift: u64 = (7 - j as u64) * 8;
        let b: u64 = (n >> shift) & 0xff;
        let c: char = (b as u8) as char;
        proof {
            assert(c == enc_u64(n)[j as int]);
            assert(enc_u64(n).take(j + 1) =~= enc_u64(n).take(j as int).push(c));
        }
        out.push(c);
        j = j + 1;
    }
    proof {
        assert(enc_u64(n).take(8) =~= enc_u64(n));
    }
}

fn push_u32(out: &mut Vec<char>, x: u32)
    ensures
        final(out)@ == old(out)@ + enc_u32(x),
{
    let ghost start = out@;
    let mut j: usize = 0;
    while j < 4
        invariant
            j <= 4,
            out@ == start + enc_u32(x).take(j as int),
        decreases 4 - j,
    {
        let shift: u32 = (3 - j as u32) * 8;
        let b: u32 = (x >> shift) & 0xff;
        let c: char = (b as u8) as char;
        proof {
            assert(c == enc_u32(x)[j as int]);
            assert(enc_u32(x).take(j + 1) =~= enc_u32(x).take(j as int).push(c));
        }
        out.push(c);
        j = j + 1;
    }
    proof {
        assert(enc_u32(x).take(4) =~= enc_u32(x));
    }
}

fn push_vec(out: &mut Vec<char>, v: &Vec<u32>)
    ensures
        final(out)@ == old(out)@ + enc_vec(v@),
{
    let ghost start = out@;
    let mut i: usize = 0;
    while i < v.len()
        invariant
            i <= v@.len(),
            out@ == start + enc_vec(v@.take(i as int)),
        decreases v@.len() - i,
    {
        push_u32(out, v[i]);
        proof {
            assert(v@.take(i + 1).drop_last() =~= v@.take(i as int));
            assert(v@.take(i + 1).last() == v@[i as int]);
            assert(enc_vec(v@.take(i + 1)) == enc_vec(v@.take(i as int)) + enc_u32(v@[i as int]));
            assert(start + enc_vec(v@.take(i as int)) + enc_u32(v@[i as int])
                =~= start + enc_vec(v@.take(i + 1)));
        }
        i = i + 1;
    }
    proof {
        assert(v@.take(v@.len() as int) =~= v@);
    }
}

fn push_str(out: &mut Vec<char>, s: &String)
    ensures
        final(out)@ == old(out)@ + enc_str(s@),
        fits_u64(s@.len()),
{
    let ghost start = out@;
    let n: usize = s.as_str().unicode_len();
    push_u64(out, n as u64);
    let ghost mid = out@;
    let mut i: usize = 0;
    while i < n
        invariant
            n == s@.len(),
            i <= n,
            out@ == mid + s@.take(i as int),
        decreases n - i,
    {
        let c: char = s.as_str().get_char(i);
        proof {
            assert(s@.take(i + 1) =~= s@.take(i as int).push(c));
        }
        out.push(c);
        i = i + 1;
    }
    proof {
        assert(s@.take(n as int) =~= s@);
        assert(out@ =~= start + enc_str(s@));
    }
}

/// Encode the index as a character blob. For a well-formed index the blob
/// is a snapshot — [`deserialize`] accepts it — so the round trip is owed.
pub fn serialize(index: &Index) -> (r: Vec<char>)
    ensures
        r@ == encode_index(index@),
        index.wf() ==> snapshot_of(r@, index@),
{
    let mut out: Vec<char> = Vec::new();
    out.push('v');
    out.push('o');
    out.push('y');
    out.push('1');
    proof {
        assert(out@ =~= header());
    }
    let points = index.points();
    push_u64(&mut out, points.len() as u64);
    let ghost pts_m = index@.points;
    let ghost before_points = out@;
    let mut i: usize = 0;
    while i < points.len()
        invariant
            vpoints(points@) == pts_m,
            i <= points@.len(),
            out@ == before_points + enc_points(pts_m.take(i as int)),
        decreases points@.len() - i,
    {
        push_u64(&mut out, points[i].key);
        push_vec(&mut out, &points[i].vector);
        proof {
            assert(points@[i as int]@ == pts_m[i as int]);
            assert(pts_m.take(i + 1).drop_last() =~= pts_m.take(i as int));
            assert(pts_m.take(i + 1).last() == pts_m[i as int]);
            assert(enc_points(pts_m.take(i + 1))
                == enc_points(pts_m.take(i as int)) + enc_point(pts_m[i as int]));
            assert(before_points + enc_points(pts_m.take(i as int)) + enc_u64(pts_m[i as int].key)
                + enc_vec(pts_m[i as int].vector)
                =~= before_points + enc_points(pts_m.take(i + 1)));
        }
        i = i + 1;
    }
    proof {
        assert(pts_m.take(pts_m.len() as int) =~= pts_m);
    }
    let entries = index.entries();
    push_u64(&mut out, entries.len() as u64);
    let ghost es_m = index@.entries;
    let ghost before_entries = out@;
    let mut j: usize = 0;
    while j < entries.len()
        invariant
            ventries(entries@) == es_m,
            j <= entries@.len(),
            out@ == before_entries + enc_entries(es_m.take(j as int)),
            entries_bounded(es_m.take(j as int)),
        decreases entries@.len() - j,
    {
        push_u64(&mut out, entries[j].key);
        push_str(&mut out, &entries[j].doc.id);
        push_str(&mut out, &entries[j].doc.title);
        push_str(&mut out, &entries[j].doc.url);
        proof {
            assert(entries@[j as int]@ == es_m[j as int]);
            assert(es_m.take(j + 1).drop_last() =~= es_m.take(j as int));
            assert(es_m.take(j + 1).last() == es_m[j as int]);
            assert(enc_entries(es_m.take(j + 1))
                == enc_entries(es_m.take(j as int)) + enc_entry(es_m[j as int]));
            assert(before_entries + enc_entries(es_m.take(j as int)) + enc_u64(es_m[j as int].key)
                + enc_str(es_m[j as int].doc.id) + enc_str(es_m[j as int].doc.title)
                + enc_str(es_m[j as int].doc.url)
                =~= before_entries + enc_entries(es_m.take(j + 1)));
            assert(entry_bounded(es_m[j as int]));
            assert forall|k: int| 0 <= k < j + 1 implies entry_bounded(#[trigger] es_m.take(j + 1)[k]) by {
                assert(es_m.take(j + 1)[k] == es_m[k]);
                if k < j {
                    assert(es_m.take(j as int)[k] == es_m[k]);
                }
            }
        }
        j = j + 1;
    }
    proof {
        assert(es_m.take(es_m.len() as int) =~= es_m);
        assert(out@ =~= encode_index(index@));
        assert(fits_u64(index@.points.len()));
        assert(fits_u64(index@.entries.len()));
        assert(entries_bounded(index@.entries));
    }
    out
}


// ---------------------------------------------------------------------------
// The decoder
// ---------------------------------------------------------------------------

/// Relies on String::push: appends exactly one character.
#[verifier::external_body]
fn push_char(s: &mut String, c: char)
    ensures
        final(s)@ == old(s)@.push(c),
{
    s.push(c);
}

/// Whether two blobs hold the same characters.
fn chars_eq(a: &Vec<char>, b: &Vec<char>) -> (r: bool)
    ensures
        r == (a@ == b@),
{
    if a.len() != b.len() {
        return false;
    }
    let n = a.len();
    let mut i: usize = 0;
    while i < n
        invariant
            n == a@.len() == b@.len(),
            i <= n,
            forall|j: int| 0 <= j < i ==> a@[j] == b@[j],
        decreases n - i,
    {
        if a[i] != b[i] {
            return false;
        }
        i = i + 1;
    }
    proof {
        assert(a@ =~= b@);
    }
    true
}

// Each parsing helper carries both directions: when it returns a value,
// the input at the given position is exactly that value's encoding
// (soundness), and when the input at the given position is some value's
// encoding, it returns that value (completeness). `deserialize` still
// re-encodes the parsed state and compares, which pins the whole blob.

/// A character is determined by its code.
proof fn lemma_char_from_byte(b: u8, c: char)
    requires
        c as u32 == b as u32,
    ensures
        c == (b as char),
{
}

/// One byte character: a character whose code is at most 0xff.
fn read_byte(s: &Vec<char>, idx: usize) -> (r: Option<u8>)
    requires
        idx < s@.len(),
    ensures
        r matches Some(b) ==> s@[idx as int] == (b as char),
        r is None ==> s@[idx as int] as u32 > 0xff,
{
    let v: u32 = s[idx] as u32;
    if v > 0xff {
        None
    } else {
        proof {
            assert((v as u8) as u32 == v);
            lemma_char_from_byte(v as u8, s@[idx as int]);
        }
        Some(v as u8)
    }
}

fn parse_u64(s: &Vec<char>, pos: usize) -> (r: Option<(u64, usize)>)
    ensures
        r matches Some(x) ==> pos + 8 <= s@.len() && x.1 == pos + 8
            && s@.subrange(pos as int, pos as int + 8) == enc_u64(x.0),
        forall|n: u64| #![trigger enc_u64(n)]
            (pos + 8 <= s@.len() && s@.subrange(pos as int, pos as int + 8) == enc_u64(n))
            ==> (r matches Some(x) && x.0 == n),
{
    let total = s.len();
    if pos >= total || total - pos < 8 {
        return None;
    }
    let b0 = match read_byte(s, pos) { Some(b) => b, None => { proof { no_u64_here(s, pos, 0); } return None; } };
    let b1 = match read_byte(s, pos + 1) { Some(b) => b, None => { proof { no_u64_here(s, pos, 1); } return None; } };
    let b2 = match read_byte(s, pos + 2) { Some(b) => b, None => { proof { no_u64_here(s, pos, 2); } return None; } };
    let b3 = match read_byte(s, pos + 3) { Some(b) => b, None => { proof { no_u64_here(s, pos, 3); } return None; } };
    let b4 = match read_byte(s, pos + 4) { Some(b) => b, None => { proof { no_u64_here(s, pos, 4); } return None; } };
    let b5 = match read_byte(s, pos + 5) { Some(b) => b, None => { proof { no_u64_here(s, pos, 5); } return None; } };
    let b6 = match read_byte(s, pos + 6) { Some(b) => b, None => { proof { no_u64_here(s, pos, 6); } return None; } };
    let b7 = match read_byte(s, pos + 7) { Some(b) => b, None => { proof { no_u64_here(s, pos, 7); } return None; } };
    let c0: u64 = b0 as u64;
    let c1: u64 = b1 as u64;
    let c2: u64 = b2 as u64;
    let c3: u64 = b3 as u64;
    let c4: u64 = b4 as u64;
    let c5: u64 = b5 as u64;
    let c6: u64 = b6 as u64;
    let c7: u64 = b7 as u64;
    let acc: u64 = (c0 << 56) | (c1 << 48) | (c2 << 40) | (c3 << 32) | (c4 << 24) | (c5 << 16)
        | (c6 << 8) | c7;
    proof {
        assert((acc == (c0 << 56) | (c1 << 48) | (c2 << 40) | (c3 << 32) | (c4 << 24) | (c5 << 16)
            | (c6 << 8) | c7
            && c0 <= 0xff && c1 <= 0xff && c2 <= 0xff && c3 <= 0xff
            && c4 <= 0xff && c5 <= 0xff && c6 <= 0xff && c7 <= 0xff)
            ==> ((acc >> 56) & 0xff == c0 && (acc >> 48) & 0xff == c1 && (acc >> 40) & 0xff == c2
                && (acc >> 32) & 0xff == c3 && (acc >> 24) & 0xff == c4 && (acc >> 16) & 0xff == c5
                && (acc >> 8) & 0xff == c6 && (acc >> 0) & 0xff == c7)) by (bit_vector);
        assert(byte_of(acc, 0) == c0 && byte_of(acc, 1) == c1 && byte_of(acc, 2) == c2
            && byte_of(acc, 3) == c3 && byte_of(acc, 4) == c4 && byte_of(acc, 5) == c5
            && byte_of(acc, 6) == c6 && byte_of(acc, 7) == c7);
        assert(s@.subrange(pos as int, pos as int + 8) =~= enc_u64(acc)) by {
            assert(enc_u64(acc)[0] == (byte_of(acc, 0) as u8) as char && s@[pos as int] == (b0 as char));
            assert(enc_u64(acc)[1] == (byte_of(acc, 1) as u8) as char && s@[pos as int + 1] == (b1 as char));
            assert(enc_u64(acc)[2] == (byte_of(acc, 2) as u8) as char && s@[pos as int + 2] == (b2 as char));
            assert(enc_u64(acc)[3] == (byte_of(acc, 3) as u8) as char && s@[pos as int + 3] == (b3 as char));
            assert(enc_u64(acc)[4] == (byte_of(acc, 4) as u8) as char && s@[pos as int + 4] == (b4 as char));
            assert(enc_u64(acc)[5] == (byte_of(acc, 5) as u8) as char && s@[pos as int + 5] == (b5 as char));
            assert(enc_u64(acc)[6] == (byte_of(acc, 6) as u8) as char && s@[pos as int + 6] == (b6 as char));
            assert(enc_u64(acc)[7] == (byte_of(acc, 7) as u8) as char && s@[pos as int + 7] == (b7 as char));
        }
        assert forall|n: u64| pos + 8 <= s@.len()
            && s@.subrange(pos as int, pos as int + 8) == #[trigger] enc_u64(n)
            implies acc == n
        by {
            lemma_enc_u64_inj(acc, n);
        }
    }
    Some((acc, pos + 8))
}

/// At a position where some byte character is not a byte character, no
/// eight-byte number can be encoded.
proof fn no_u64_here(s: &Vec<char>, pos: usize, k: int)
    requires
        0 <= k < 8,
        pos + 8 <= s@.len(),
        s@[pos + k] as u32 > 0xff,
    ensures
        forall|n: u64| s@.subrange(pos as int, pos as int + 8) != #[trigger] enc_u64(n),
{
    assert forall|n: u64| s@.subrange(pos as int, pos as int + 8) != #[trigger] enc_u64(n) by {
        if s@.subrange(pos as int, pos as int + 8) == enc_u64(n) {
            assert(s@[pos + k] == enc_u64(n)[k]);
            assert(enc_u64(n)[k] == (byte_of(n, k) as u8) as char);
            assert(((byte_of(n, k) as u8) as char) as u32 <= 0xff);
        }
    }
}

fn parse_u32(s: &Vec<char>, pos: usize) -> (r: Option<(u32, usize)>)
    ensures
        r matches Some(x) ==> pos + 4 <= s@.len() && x.1 == pos + 4
            && s@.subrange(pos as int, pos as int + 4) == enc_u32(x.0),
        forall|w: u32| #![trigger enc_u32(w)]
            (pos + 4 <= s@.len() && s@.subrange(pos as int, pos as int + 4) == enc_u32(w))
            ==> (r matches Some(x) && x.0 == w),
{
    let total = s.len();
    if pos >= total || total - pos < 4 {
        return None;
    }
    let b0 = match read_byte(s, pos) { Some(b) => b, None => { proof { no_u32_here(s, pos, 0); } return None; } };
    let b1 = match read_byte(s, pos + 1) { Some(b) => b, None => { proof { no_u32_here(s, pos, 1); } return None; } };
    let b2 = match read_byte(s, pos + 2) { Some(b) => b, None => { proof { no_u32_here(s, pos, 2); } return None; } };
    let b3 = match read_byte(s, pos + 3) { Some(b) => b, None => { proof { no_u32_here(s, pos, 3); } return None; } };
    let c0: u32 = b0 as u32;
    let c1: u32 = b1 as u32;
    let c2: u32 = b2 as u32;
    let c3: u32 = b3 as u32;
    let acc: u32 = (c0 << 24) | (c1 << 16) | (c2 << 8) | c3;
    proof {
        assert((acc == (c0 << 24) | (c1 << 16) | (c2 << 8) | c3
            && c0 <= 0xff && c1 <= 0xff && c2 <= 0xff && c3 <= 0xff)
            ==> ((acc >> 24) & 0xff == c0 && (acc >> 16) & 0xff == c1
                && (acc >> 8) & 0xff == c2 && (acc >> 0) & 0xff == c3)) by (bit_vector);
        assert(byte32_of(acc, 0) == c0 && byte32_of(acc, 1) == c1 && byte32_of(acc, 2) == c2
            && byte32_of(acc, 3) == c3);
        assert(s@.subrange(pos as int, pos as int + 4) =~= enc_u32(acc)) by {
            assert(enc_u32(acc)[0] == (byte32_of(acc, 0) as u8) as char && s@[pos as int] == (b0 as char));
            assert(enc_u32(acc)[1] == (byte32_of(acc, 1) as u8) as char && s@[pos as int + 1] == (b1 as char));
            assert(enc_u32(acc)[2] == (byte32_of(acc, 2) as u8) as char && s@[pos as int + 2] == (b2 as char));
            assert(enc_u32(acc)[3] == (byte32_of(acc, 3) as u8) as char && s@[pos as int + 3] == (b3 as char));
        }
        assert forall|w: u32| pos + 4 <= s@.len()
            && s@.subrange(pos as int, pos as int + 4) == #[trigger] enc_u32(w)
            implies acc == w
        by {
            lemma_enc_u32_inj(acc, w);
        }
    }
    Some((acc, pos + 4))
}

/// At a position where some byte character is not a byte character, no
/// four-byte word can be encoded.
proof fn no_u32_here(s: &Vec<char>, pos: usize, k: int)
    requires
        0 <= k < 4,
        pos + 4 <= s@.len(),
        s@[pos + k] as u32 > 0xff,
    ensures
        forall|w: u32| s@.subrange(pos as int, pos as int + 4) != #[trigger] enc_u32(w),
{
    assert forall|w: u32| s@.subrange(pos as int, pos as int + 4) != #[trigger] enc_u32(w) by {
        if s@.subrange(pos as int, pos as int + 4) == enc_u32(w) {
            assert(s@[pos + k] == enc_u32(w)[k]);
            assert(enc_u32(w)[k] == (byte32_of(w, k) as u8) as char);
            assert(((byte32_of(w, k) as u8) as char) as u32 <= 0xff);
        }
    }
}

fn parse_string(s: &Vec<char>, pos: usize) -> (r: Option<(String, usize)>)
    ensures
        r matches Some(x) ==> pos + 8 <= s@.len() && x.1 == pos + 8 + x.0@.len()
            && x.1 <= s@.len() && fits_u64(x.0@.len())
            && s@.subrange(pos as int, x.1 as int) == enc_str(x.0@),
        forall|t: Seq<char>| #![trigger enc_str(t)]
            (fits_u64(t.len()) && pos + 8 + t.len() <= s@.len()
                && s@.subrange(pos as int, pos as int + 8 + t.len()) == enc_str(t))
            ==> (r matches Some(x) && x.0@ == t),
{
    let total = s.len();
    let (len, p) = match parse_u64(s, pos) {
        Some(x) => x,
        None => {
            proof {
                assert forall|t: Seq<char>| fits_u64(t.len()) && pos + 8 + t.len() <= s@.len()
                    && s@.subrange(pos as int, pos as int + 8 + t.len()) == #[trigger] enc_str(t)
                    implies false
                by {
                    assert(s@.subrange(pos as int, pos as int + 8)
                        =~= enc_str(t).subrange(0, 8));
                    assert(enc_str(t).subrange(0, 8) =~= enc_u64(t.len() as u64));
                }
            }
            return None;
        },
    };
    if len > (total - p) as u64 {
        proof {
            assert forall|t: Seq<char>| fits_u64(t.len()) && pos + 8 + t.len() <= s@.len()
                && s@.subrange(pos as int, pos as int + 8 + t.len()) == #[trigger] enc_str(t)
                implies false
            by {
                assert(s@.subrange(pos as int, pos as int + 8) =~= enc_str(t).subrange(0, 8));
                assert(enc_str(t).subrange(0, 8) =~= enc_u64(t.len() as u64));
                lemma_enc_u64_inj(len, t.len() as u64);
                assert(len == t.len());
            }
        }
        return None;
    }
    let n: usize = len as usize;
    let mut out = String::new();
    let mut i: usize = 0;
    while i < n
        invariant
            p + n <= total == s@.len(),
            i <= n,
            out@ == s@.subrange(p as int, p + i),
        decreases n - i,
    {
        proof {
            assert(s@.subrange(p as int, p + i + 1)
                =~= s@.subrange(p as int, p + i).push(s@[p + i]));
        }
        push_char(&mut out, s[p + i]);
        i = i + 1;
    }
    proof {
        assert(out@ == s@.subrange(p as int, p + n));
        assert(out@.len() == n);
        assert(s@.subrange(pos as int, (p + n) as int)
            =~= s@.subrange(pos as int, p as int) + s@.subrange(p as int, (p + n) as int));
        assert(enc_str(out@) == enc_u64(out@.len() as u64) + out@);
        assert(out@.len() as u64 == len);
        assert(s@.subrange(pos as int, (p + n) as int) =~= enc_str(out@));
        assert forall|t: Seq<char>| fits_u64(t.len()) && pos + 8 + t.len() <= s@.len()
            && s@.subrange(pos as int, pos as int + 8 + t.len()) == #[trigger] enc_str(t)
            implies out@ == t
        by {
            assert(s@.subrange(pos as int, pos as int + 8) =~= enc_str(t).subrange(0, 8));
            assert(enc_str(t).subrange(0, 8) =~= enc_u64(t.len() as u64));
            lemma_enc_u64_inj(len, t.len() as u64);
            assert(t.len() == n);
            assert(t =~= enc_str(t).subrange(8, 8 + t.len() as int));
            assert(s@.subrange(pos as int + 8, pos as int + 8 + t.len())
                =~= enc_str(t).subrange(8, 8 + t.len() as int));
            assert(out@ =~= t);
        }
    }
    Some((out, p + n))
}

proof fn lemma_enc_vec_take_snoc(v: Seq<u32>, i: int)
    requires
        0 <= i < v.len(),
    ensures
        enc_vec(v.take(i + 1)) == enc_vec(v.take(i)) + enc_u32(v[i]),
{
    assert(v.take(i + 1).drop_last() =~= v.take(i));
    assert(v.take(i + 1).last() == v[i]);
}

/// The encoding of a vector splits at any index.
proof fn lemma_enc_vec_split(v: Seq<u32>, i: int)
    requires
        0 <= i <= v.len(),
    ensures
        enc_vec(v) == enc_vec(v.take(i)) + enc_vec(v.skip(i)),
    decreases v.len() - i,
{
    if i == v.len() {
        assert(v.take(i) =~= v);
        assert(v.skip(i) =~= Seq::<u32>::empty());
        assert(enc_vec(v) =~= enc_vec(v.take(i)) + enc_vec(v.skip(i)));
    } else {
        lemma_enc_vec_split(v, i + 1);
        lemma_enc_vec_take_snoc(v, i);
        assert(v.skip(i).drop_first() =~= v.skip(i + 1));
        assert(v.skip(i)[0] == v[i]);
        lemma_enc_vec_head(v.skip(i));
        assert(enc_vec(v.skip(i)) == enc_u32(v[i]) + enc_vec(v.skip(i + 1)));
        assert((enc_vec(v.take(i)) + enc_u32(v[i])) + enc_vec(v.skip(i + 1))
            =~= enc_vec(v.take(i)) + (enc_u32(v[i]) + enc_vec(v.skip(i + 1))));
    }
}

proof fn lemma_enc_vec_head(v: Seq<u32>)
    requires
        v.len() > 0,
    ensures
        enc_vec(v) == enc_u32(v[0]) + enc_vec(v.drop_first()),
    decreases v.len(),
{
    if v.len() == 1 {
        assert(v.drop_last() =~= Seq::<u32>::empty());
        assert(v.drop_first() =~= Seq::<u32>::empty());
        assert(v.last() == v[0]);
        assert(enc_vec(v) =~= enc_u32(v[0]) + enc_vec(v.drop_first()));
    } else {
        lemma_enc_vec_head(v.drop_last());
        assert(v.drop_last()[0] == v[0]);
        assert(v.drop_first().drop_last() =~= v.drop_last().drop_first());
        assert(v.drop_first().last() == v.last());
        assert(enc_vec(v.drop_first())
            == enc_vec(v.drop_first().drop_last()) + enc_u32(v.drop_first().last()));
        assert(enc_vec(v)
            =~= (enc_u32(v[0]) + enc_vec(v.drop_last().drop_first())) + enc_u32(v.last()));
        assert((enc_u32(v[0]) + enc_vec(v.drop_last().drop_first())) + enc_u32(v.last())
            =~= enc_u32(v[0]) + (enc_vec(v.drop_last().drop_first()) + enc_u32(v.last())));
    }
}

fn parse_point(s: &Vec<char>, pos: usize) -> (r: Option<(Point, usize)>)
    ensures
        r matches Some(x) ==> x.1 == pos + 8 + 4 * crate::DIM && x.1 <= s@.len()
            && x.0@.vector.len() == crate::DIM
            && s@.subrange(pos as int, x.1 as int) == enc_point(x.0@),
        forall|pt: PointModel| #![trigger enc_point(pt)]
            (pt.vector.len() == crate::DIM && pos + 8 + 4 * crate::DIM <= s@.len()
                && s@.subrange(pos as int, pos as int + 8 + 4 * crate::DIM) == enc_point(pt))
            ==> (r matches Some(x) && x.0@ == pt),
{
    let (key, p0) = match parse_u64(s, pos) {
        Some(x) => x,
        None => {
            proof {
                assert forall|pt: PointModel| pt.vector.len() == crate::DIM
                    && pos + 8 + 4 * crate::DIM <= s@.len()
                    && s@.subrange(pos as int, pos as int + 8 + 4 * crate::DIM) == #[trigger] enc_point(pt)
                    implies false
                by {
                    assert(s@.subrange(pos as int, pos as int + 8) =~= enc_point(pt).subrange(0, 8));
                    assert(enc_point(pt).subrange(0, 8) =~= enc_u64(pt.key));
                }
            }
            return None;
        },
    };
    let mut vector: Vec<u32> = Vec::new();
    let mut p: usize = p0;
    let mut i: usize = 0;
    while i < crate::DIM
        invariant
            i <= crate::DIM,
            p0 == pos + 8,
            p == p0 + 4 * i,
            p <= s@.len(),
            vector@.len() == i,
            enc_vec(vector@) == s@.subrange(p0 as int, p as int),
            s@.subrange(pos as int, p0 as int) == enc_u64(key),
        decreases crate::DIM - i,
    {
        let ghost vec_old = vector@;
        match parse_u32(s, p) {
            Some((w, p2)) => {
                vector.push(w);
                proof {
                    assert(vector@ =~= vec_old.push(w));
                    assert(vector@.drop_last() =~= vec_old);
                    assert(vector@.last() == w);
                    assert(enc_vec(vector@) == enc_vec(vec_old) + enc_u32(w));
                    assert(s@.subrange(p0 as int, p2 as int)
                        =~= s@.subrange(p0 as int, p as int) + s@.subrange(p as int, p2 as int));
                }
                p = p2;
            },
            None => {
                proof {
                    assert forall|pt: PointModel| pt.vector.len() == crate::DIM
                        && pos + 8 + 4 * crate::DIM <= s@.len()
                        && s@.subrange(pos as int, pos as int + 8 + 4 * crate::DIM) == #[trigger] enc_point(pt)
                        implies false
                    by {
                        lemma_enc_vec_split(pt.vector, i as int);
                        lemma_enc_vec_head(pt.vector.skip(i as int));
                        lemma_enc_vec_len(pt.vector.take(i as int));
                        lemma_enc_vec_len(pt.vector);
                        lemma_enc_vec_len(pt.vector.skip(i as int));
                        assert(pt.vector.skip(i as int)[0] == pt.vector[i as int]);
                        assert(p == pos + 8 + 4 * i);
                        assert(enc_vec(pt.vector)
                            == enc_vec(pt.vector.take(i as int))
                                + (enc_u32(pt.vector[i as int]) + enc_vec(pt.vector.skip(i as int).drop_first())));
                        assert(s@.subrange(pos as int + 8, pos as int + 8 + 4 * crate::DIM)
                            =~= enc_point(pt).subrange(8, 8 + 4 * crate::DIM));
                        assert(enc_point(pt).subrange(8, 8 + 4 * crate::DIM) =~= enc_vec(pt.vector));
                        assert(s@.subrange(p as int, p as int + 4)
                            =~= enc_vec(pt.vector).subrange(4 * i as int, 4 * i + 4));
                        assert(enc_vec(pt.vector).subrange(4 * i as int, 4 * i + 4)
                            =~= enc_u32(pt.vector[i as int]));
                    }
                }
                return None;
            },
        }
        i = i + 1;
    }
    proof {
        assert(s@.subrange(pos as int, p as int)
            =~= s@.subrange(pos as int, p0 as int) + s@.subrange(p0 as int, p as int));
        assert(s@.subrange(pos as int, p as int) =~= enc_u64(key) + enc_vec(vector@));
        assert forall|pt: PointModel| pt.vector.len() == crate::DIM
            && pos + 8 + 4 * crate::DIM <= s@.len()
            && s@.subrange(pos as int, pos as int + 8 + 4 * crate::DIM) == #[trigger] enc_point(pt)
            implies (PointModel { vector: vector@, key }) == pt
        by {
            assert(s@.subrange(pos as int, pos as int + 8) =~= enc_point(pt).subrange(0, 8));
            assert(enc_point(pt).subrange(0, 8) =~= enc_u64(pt.key));
            lemma_enc_u64_inj(key, pt.key);
            lemma_enc_vec_len(pt.vector);
            assert(s@.subrange(pos as int + 8, pos as int + 8 + 4 * crate::DIM)
                =~= enc_point(pt).subrange(8, 8 + 4 * crate::DIM));
            assert(enc_point(pt).subrange(8, 8 + 4 * crate::DIM) =~= enc_vec(pt.vector));
            lemma_enc_vec_inj(vector@, pt.vector);
        }
    }
    Some((Point { vector, key }, p))
}

proof fn lemma_enc_points_take_snoc(ps: Seq<PointModel>, i: int)
    requires
        0 <= i < ps.len(),
    ensures
        enc_points(ps.take(i + 1)) == enc_points(ps.take(i)) + enc_point(ps[i]),
{
    assert(ps.take(i + 1).drop_last() =~= ps.take(i));
    assert(ps.take(i + 1).last() == ps[i]);
}

proof fn lemma_enc_points_head(ps: Seq<PointModel>)
    requires
        ps.len() > 0,
    ensures
        enc_points(ps) == enc_point(ps[0]) + enc_points(ps.drop_first()),
    decreases ps.len(),
{
    if ps.len() == 1 {
        assert(ps.drop_last() =~= Seq::<PointModel>::empty());
        assert(ps.drop_first() =~= Seq::<PointModel>::empty());
        assert(ps.last() == ps[0]);
        assert(enc_points(ps) =~= enc_point(ps[0]) + enc_points(ps.drop_first()));
    } else {
        lemma_enc_points_head(ps.drop_last());
        assert(ps.drop_last()[0] == ps[0]);
        assert(ps.drop_first().drop_last() =~= ps.drop_last().drop_first());
        assert(ps.drop_first().last() == ps.last());
        assert(enc_points(ps.drop_first())
            == enc_points(ps.drop_first().drop_last()) + enc_point(ps.drop_first().last()));
        assert(enc_points(ps)
            =~= (enc_point(ps[0]) + enc_points(ps.drop_last().drop_first())) + enc_point(ps.last()));
        assert((enc_point(ps[0]) + enc_points(ps.drop_last().drop_first())) + enc_point(ps.last())
            =~= enc_point(ps[0]) + (enc_points(ps.drop_last().drop_first()) + enc_point(ps.last())));
    }
}

proof fn lemma_enc_points_split(ps: Seq<PointModel>, i: int)
    requires
        0 <= i <= ps.len(),
    ensures
        enc_points(ps) == enc_points(ps.take(i)) + enc_points(ps.skip(i)),
    decreases ps.len() - i,
{
    if i == ps.len() {
        assert(ps.take(i) =~= ps);
        assert(ps.skip(i) =~= Seq::<PointModel>::empty());
        assert(enc_points(ps) =~= enc_points(ps.take(i)) + enc_points(ps.skip(i)));
    } else {
        lemma_enc_points_split(ps, i + 1);
        lemma_enc_points_take_snoc(ps, i);
        assert(ps.skip(i).drop_first() =~= ps.skip(i + 1));
        assert(ps.skip(i)[0] == ps[i]);
        lemma_enc_points_head(ps.skip(i));
        assert(enc_points(ps.skip(i)) == enc_point(ps[i]) + enc_points(ps.skip(i + 1)));
        assert((enc_points(ps.take(i)) + enc_point(ps[i])) + enc_points(ps.skip(i + 1))
            =~= enc_points(ps.take(i)) + (enc_point(ps[i]) + enc_points(ps.skip(i + 1))));
    }
}

proof fn lemma_enc_entries_split(es: Seq<EntryModel>, i: int)
    requires
        0 <= i <= es.len(),
    ensures
        enc_entries(es) == enc_entries(es.take(i)) + enc_entries(es.skip(i)),
    decreases es.len() - i,
{
    if i == es.len() {
        assert(es.take(i) =~= es);
        assert(es.skip(i) =~= Seq::<EntryModel>::empty());
        assert(enc_entries(es) =~= enc_entries(es.take(i)) + enc_entries(es.skip(i)));
    } else {
        lemma_enc_entries_split(es, i + 1);
        assert(es.take(i + 1).drop_last() =~= es.take(i));
        assert(es.take(i + 1).last() == es[i]);
        assert(enc_entries(es.take(i + 1)) == enc_entries(es.take(i)) + enc_entry(es[i]));
        assert(es.skip(i).drop_first() =~= es.skip(i + 1));
        assert(es.skip(i)[0] == es[i]);
        lemma_enc_entries_head(es.skip(i));
        assert(enc_entries(es.skip(i)) == enc_entry(es[i]) + enc_entries(es.skip(i + 1)));
        assert((enc_entries(es.take(i)) + enc_entry(es[i])) + enc_entries(es.skip(i + 1))
            =~= enc_entries(es.take(i)) + (enc_entry(es[i]) + enc_entries(es.skip(i + 1))));
    }
}

/// Where every part of the snapshot stands in the blob.
proof fn lemma_encode_layout(m: IndexModel, s: Seq<char>)
    requires
        points_dim_ok(m.points),
        s == encode_index(m),
    ensures
        s.len() == 12 + (8 + 4 * crate::DIM) * m.points.len() + 8 + enc_entries(m.entries).len(),
        s.subrange(0, 4) == header(),
        s.subrange(4, 12) == enc_u64(m.points.len() as u64),
        s.subrange(12, 12 + ((8 + 4 * crate::DIM) * m.points.len()) as int) == enc_points(m.points),
        s.subrange(
            12 + ((8 + 4 * crate::DIM) * m.points.len()) as int,
            20 + ((8 + 4 * crate::DIM) * m.points.len()) as int,
        ) == enc_u64(m.entries.len() as u64),
        s.subrange(20 + ((8 + 4 * crate::DIM) * m.points.len()) as int, s.len() as int)
            == enc_entries(m.entries),
{
    lemma_enc_points_len(m.points);
    assert(header().len() == 4);
    assert(s.subrange(0, 4) =~= header());
    assert(s.subrange(4, 12) =~= enc_u64(m.points.len() as u64));
    assert(s.subrange(12, 12 + ((8 + 4 * crate::DIM) * m.points.len()) as int)
        =~= enc_points(m.points));
    assert(s.subrange(
        12 + ((8 + 4 * crate::DIM) * m.points.len()) as int,
        20 + ((8 + 4 * crate::DIM) * m.points.len()) as int,
    ) =~= enc_u64(m.entries.len() as u64));
    assert(s.subrange(20 + ((8 + 4 * crate::DIM) * m.points.len()) as int, s.len() as int)
        =~= enc_entries(m.entries));
}

/// The premise every completeness step of `parse_index` starts from.
pub open spec fn snapshot_of(s: Seq<char>, m: IndexModel) -> bool {
    &&& wf_model(m)
    &&& fits_u64(m.points.len())
    &&& fits_u64(m.entries.len())
    &&& entries_bounded(m.entries)
    &&& s == encode_index(m)
}

/// One entry encoded at position `q` of the blob.
pub open spec fn entry_at(s: Seq<char>, q: int, e: EntryModel) -> bool {
    let o1 = q + 8;
    let o2 = o1 + 8 + e.doc.id.len() as int;
    let o3 = o2 + 8 + e.doc.title.len() as int;
    let o4 = o3 + 8 + e.doc.url.len() as int;
    &&& 0 <= q
    &&& o4 <= s.len()
    &&& s.subrange(q, o1) == enc_u64(e.key)
    &&& s.subrange(o1, o2) == enc_str(e.doc.id)
    &&& s.subrange(o2, o3) == enc_str(e.doc.title)
    &&& s.subrange(o3, o4) == enc_str(e.doc.url)
}

/// Against a snapshot of `m`, a run of parsed entries whose encoding fills
/// the blob from the table's start up to `q` is exactly the first entries
/// of `m`, and entry number `j` of `m` stands encoded at `q`.
#[verifier::rlimit(100)]
proof fn lemma_entry_chunk(m: IndexModel, s: Seq<char>, ve: Seq<EntryModel>, q: int, j: int)
    requires
        snapshot_of(s, m),
        20 + ((8 + 4 * crate::DIM) * m.points.len()) as int <= q <= s.len(),
        enc_entries(ve) == s.subrange(20 + ((8 + 4 * crate::DIM) * m.points.len()) as int, q),
        entries_bounded(ve),
        ve.len() == j,
        j <= m.entries.len(),
    ensures
        ve == m.entries.take(j),
        s.subrange(q, s.len() as int) == enc_entries(m.entries.skip(j)),
        j < m.entries.len() ==> entry_at(s, q, m.entries[j]),
{
    let q0 = 20 + ((8 + 4 * crate::DIM) * m.points.len()) as int;
    lemma_encode_layout(m, s);
    lemma_enc_entries_split(m.entries, j);
    assert(s.subrange(q0, s.len() as int)
        =~= s.subrange(q0, q) + s.subrange(q, s.len() as int));
    assert(entries_bounded(m.entries.take(j))) by {
        assert(forall|i: int| 0 <= i < j ==> m.entries.take(j)[i] == m.entries[i]);
    }
    lemma_entries_prefix(ve, m.entries.take(j), s.subrange(q, s.len() as int),
        enc_entries(m.entries.skip(j)));
    if j < m.entries.len() {
        let e = m.entries[j];
        lemma_enc_entries_head(m.entries.skip(j));
        assert(m.entries.skip(j)[0] == e);
        assert(m.entries.skip(j).drop_first() =~= m.entries.skip(j + 1));
        assert(s.subrange(q, s.len() as int)
            == enc_entry(e) + enc_entries(m.entries.skip(j + 1)));
        let o1 = q + 8;
        let o2 = o1 + 8 + e.doc.id.len() as int;
        let o3 = o2 + 8 + e.doc.title.len() as int;
        let o4 = o3 + 8 + e.doc.url.len() as int;
        assert(enc_entry(e).len() == o4 - q);
        assert(s.subrange(q, o1) =~= enc_u64(e.key));
        assert(s.subrange(o1, o2) =~= enc_str(e.doc.id));
        assert(s.subrange(o2, o3) =~= enc_str(e.doc.title));
        assert(s.subrange(o3, o4) =~= enc_str(e.doc.url));
    }
}

fn parse_index(s: &Vec<char>) -> (r: Option<(Vec<Point>, Vec<Entry>)>)
    ensures
        r matches Some(x) ==> entries_bounded(ventries(x.1@)),
        forall|m: IndexModel| #![trigger encode_index(m)]
            snapshot_of(s@, m)
            ==> (r matches Some(x) && vpoints(x.0@) == m.points && ventries(x.1@) == m.entries),
{
    if s.len() < 12 || s[0] != 'v' || s[1] != 'o' || s[2] != 'y' || s[3] != '1' {
        proof {
            assert forall|m: IndexModel| snapshot_of(s@, m) implies false by {
                lemma_encode_layout(m, s@);
                assert(s@[0] == header()[0] && s@[1] == header()[1] && s@[2] == header()[2]
                    && s@[3] == header()[3]);
                assert(header()[0] == 'v' && header()[1] == 'o' && header()[2] == 'y'
                    && header()[3] == '1');
            }
        }
        return None;
    }
    let (n_points, p0) = match parse_u64(s, 4) {
        Some(x) => x,
        None => {
            proof {
                assert forall|m: IndexModel| snapshot_of(s@, m) implies false by {
                    lemma_encode_layout(m, s@);
                }
            }
            return None;
        },
    };
    let mut points: Vec<Point> = Vec::new();
    let mut p: usize = p0;
    let mut i: u64 = 0;
    while i < n_points
        invariant
            p0 == 12,
            s@.subrange(4, 12) == enc_u64(n_points),
            i <= n_points,
            points@.len() == i,
            points_dim_ok(vpoints(points@)),
            enc_points(vpoints(points@)) == s@.subrange(12, p as int),
            p as int == 12 + (8 + 4 * crate::DIM) * (i as int),
            p <= s@.len(),
        decreases n_points - i,
    {
        let ghost points_old = vpoints(points@);
        match parse_point(s, p) {
            Some((pt, p2)) => {
                points.push(pt);
                proof {
                    assert(vpoints(points@) =~= points_old.push(pt@));
                    assert(vpoints(points@).drop_last() =~= points_old);
                    assert(vpoints(points@).last() == pt@);
                    assert(enc_points(vpoints(points@)) == enc_points(points_old) + enc_point(pt@));
                    assert(s@.subrange(12, p2 as int)
                        =~= s@.subrange(12, p as int) + s@.subrange(p as int, p2 as int));
                    assert forall|k: int| 0 <= k < vpoints(points@).len()
                        implies (#[trigger] vpoints(points@)[k].vector).len() == crate::DIM
                    by {
                        if k < points_old.len() {
                            assert(vpoints(points@)[k] == points_old[k]);
                        }
                    }
                }
                p = p2;
                proof {
                    assert((8 + 4 * crate::DIM) * ((i + 1) as int)
                        == (8 + 4 * crate::DIM) * (i as int) + (8 + 4 * crate::DIM))
                        by (nonlinear_arith);
                }
            },
            None => {
                proof {
                    assert forall|m: IndexModel| snapshot_of(s@, m) implies false by {
                        lemma_encode_layout(m, s@);
                        lemma_enc_u64_inj(n_points, m.points.len() as u64);
                        assert(i < m.points.len());
                        lemma_enc_points_split(m.points, i as int);
                        lemma_enc_points_head(m.points.skip(i as int));
                        assert(points_dim_ok(m.points.take(i as int))) by {
                            assert(forall|k: int| 0 <= k < i ==> m.points.take(i as int)[k] == m.points[k]);
                        }
                        lemma_enc_points_len(m.points.take(i as int));
                        lemma_enc_points_len(m.points);
                        assert(enc_points(m.points.take(i as int)).len()
                            == (8 + 4 * crate::DIM) * (i as int)) by (nonlinear_arith)
                        requires
                            enc_points(m.points.take(i as int)).len()
                                == m.points.take(i as int).len() * (8 + 4 * crate::DIM),
                            m.points.take(i as int).len() == i as int,
                        {}
                        assert(m.points.skip(i as int)[0] == m.points[i as int]);
                        assert(enc_points(m.points)
                            == enc_points(m.points.take(i as int))
                                + (enc_point(m.points[i as int]) + enc_points(m.points.skip(i as int).drop_first())));
                        assert(enc_point(m.points[i as int]).len() == 8 + 4 * crate::DIM) by {
                            lemma_enc_vec_len(m.points[i as int].vector);
                        }
                        assert(s@.subrange(p as int, p as int + 8 + 4 * crate::DIM)
                            =~= enc_point(m.points[i as int]));
                        assert(m.points[i as int].vector.len() == crate::DIM);
                    }
                }
                return None;
            },
        }
        i = i + 1;
    }
    let (n_entries, q0) = match parse_u64(s, p) {
        Some(x) => x,
        None => {
            proof {
                assert forall|m: IndexModel| snapshot_of(s@, m) implies false by {
                    lemma_encode_layout(m, s@);
                    lemma_enc_u64_inj(n_points, m.points.len() as u64);
                    lemma_enc_points_len(vpoints(points@));
                }
            }
            return None;
        },
    };
    proof {
        lemma_enc_points_len(vpoints(points@));
    }
    let mut entries: Vec<Entry> = Vec::new();
    let mut q: usize = q0;
    let mut j: u64 = 0;
    while j < n_entries
        invariant
            p as int == 12 + (8 + 4 * crate::DIM) * (points@.len() as int),
            q0 == p + 8,
            s@.subrange(4, 12) == enc_u64(n_points),
            points@.len() == n_points,
            points_dim_ok(vpoints(points@)),
            enc_points(vpoints(points@)) == s@.subrange(12, p as int),
            s@.subrange(p as int, q0 as int) == enc_u64(n_entries),
            j <= n_entries,
            entries@.len() == j,
            entries_bounded(ventries(entries@)),
            enc_entries(ventries(entries@)) == s@.subrange(q0 as int, q as int),
            q0 <= q <= s@.len(),
        decreases n_entries - j,
    {
        let ghost entries_old = ventries(entries@);
        let parsed = parse_entry(s, q);
        match parsed {
            Some((e, q4)) => {
                proof {
                    assert(ventries(entries@.push(e)) =~= entries_old.push(e@));
                    assert(ventries(entries@.push(e)).drop_last() =~= entries_old);
                    assert(ventries(entries@.push(e)).last() == e@);
                    assert(enc_entries(entries_old.push(e@))
                        == enc_entries(entries_old) + enc_entry(e@));
                    assert(s@.subrange(q0 as int, q4 as int)
                        =~= s@.subrange(q0 as int, q as int) + s@.subrange(q as int, q4 as int));
                    assert forall|k: int| 0 <= k < entries_old.push(e@).len()
                        implies entry_bounded(#[trigger] entries_old.push(e@)[k])
                    by {
                        if k < entries_old.len() {
                            assert(entries_old.push(e@)[k] == entries_old[k]);
                        }
                    }
                }
                entries.push(e);
                q = q4;
            },
            None => {
                proof {
                    assert forall|m: IndexModel| snapshot_of(s@, m) implies false by {
                        lemma_encode_layout(m, s@);
                        lemma_enc_u64_inj(n_points, m.points.len() as u64);
                        lemma_enc_points_len(vpoints(points@));
                        lemma_enc_u64_inj(n_entries, m.entries.len() as u64);
                        lemma_entry_chunk(m, s@, ventries(entries@), q as int, j as int);
                    }
                }
                return None;
            },
        }
        j = j + 1;
    }
    proof {
        assert forall|m: IndexModel| snapshot_of(s@, m)
            implies vpoints(points@) == m.points && ventries(entries@) == m.entries
        by {
            lemma_encode_layout(m, s@);
            lemma_enc_u64_inj(n_points, m.points.len() as u64);
            lemma_enc_points_len(vpoints(points@));
            lemma_enc_points_len(m.points);
            assert(enc_points(vpoints(points@)) == enc_points(m.points));
            lemma_enc_points_inj(vpoints(points@), m.points);
            lemma_enc_u64_inj(n_entries, m.entries.len() as u64);
            lemma_entry_chunk(m, s@, ventries(entries@), q as int, j as int);
            assert(m.entries.take(m.entries.len() as int) =~= m.entries);
        }
    }
    Some((points, entries))
}

/// One table entry: its key and its three length-prefixed strings. When
/// entry `e` stands encoded at `pos`, that entry comes back.
fn parse_entry(s: &Vec<char>, pos: usize) -> (r: Option<(Entry, usize)>)
    ensures
        r matches Some(x) ==> pos + 8 <= x.1 && x.1 <= s@.len()
            && entry_bounded(x.0@)
            && s@.subrange(pos as int, x.1 as int) == enc_entry(x.0@),
        forall|e: EntryModel| (entry_bounded(e) && entry_at(s@, pos as int, e))
            ==> (r matches Some(x) && x.0@ == e),
{
    let (key, q1) = match parse_u64(s, pos) {
        Some(x) => x,
        None => {
            proof {
                assert forall|e: EntryModel| entry_bounded(e) && entry_at(s@, pos as int, e)
                    implies false by {}
            }
            return None;
        },
    };
    let (id, q2) = match parse_string(s, q1) {
        Some(x) => x,
        None => {
            proof {
                assert forall|e: EntryModel| entry_bounded(e) && entry_at(s@, pos as int, e)
                    implies false by {}
            }
            return None;
        },
    };
    let (title, q3) = match parse_string(s, q2) {
        Some(x) => x,
        None => {
            proof {
                assert forall|e: EntryModel| entry_bounded(e) && entry_at(s@, pos as int, e)
                    implies false by {
                    assert(s@.subrange(pos as int, pos as int + 8) =~= enc_u64(e.key));
                    lemma_enc_u64_inj(key, e.key);
                    assert(id@ == e.doc.id);
                }
            }
            return None;
        },
    };
    let (url, q4) = match parse_string(s, q3) {
        Some(x) => x,
        None => {
            proof {
                assert forall|e: EntryModel| entry_bounded(e) && entry_at(s@, pos as int, e)
                    implies false by {
                    assert(s@.subrange(pos as int, pos as int + 8) =~= enc_u64(e.key));
                    lemma_enc_u64_inj(key, e.key);
                    assert(id@ == e.doc.id);
                    assert(title@ == e.doc.title);
                }
            }
            return None;
        },
    };
    let entry = Entry { key, doc: crate::Document { id, title, url } };
    proof {
        assert(s@.subrange(pos as int, q4 as int)
            =~= s@.subrange(pos as int, q1 as int) + s@.subrange(q1 as int, q2 as int)
                + s@.subrange(q2 as int, q3 as int) + s@.subrange(q3 as int, q4 as int));
        assert(s@.subrange(pos as int, q4 as int) =~= enc_entry(entry@));
        assert forall|e: EntryModel| entry_bounded(e) && entry_at(s@, pos as int, e)
            implies entry@ == e
        by {
            assert(s@.subrange(pos as int, pos as int + 8) =~= enc_u64(e.key));
            lemma_enc_u64_inj(key, e.key);
            assert(id@ == e.doc.id);
            assert(title@ == e.doc.title);
            assert(url@ == e.doc.url);
        }
    }
    Some((entry, q4))
}

// ---------------------------------------------------------------------------
// Well-formedness checks on parsed state
// ---------------------------------------------------------------------------

fn check_keys_unique(entries: &Vec<Entry>) -> (r: bool)
    ensures
        r == keys_unique(ventries(entries@)),
{
    let n = entries.len();
    let mut i: usize = 0;
    while i < n
        invariant
            n == entries@.len(),
            i <= n,
            forall|a: int, b: int| 0 <= a < b < i ==> ventries(entries@)[a].key != ventries(entries@)[b].key,
        decreases n - i,
    {
        let mut j: usize = 0;
        while j < i
            invariant
                i < n == entries@.len(),
                j <= i,
                forall|b: int| 0 <= b < j ==> ventries(entries@)[b].key != ventries(entries@)[i as int].key,
            decreases i - j,
        {
            if entries[j].key == entries[i].key {
                proof {
                    assert(ventries(entries@)[j as int].key == ventries(entries@)[i as int].key);
                    assert(!keys_unique(ventries(entries@)));
                }
                return false;
            }
            j = j + 1;
        }
        i = i + 1;
    }
    true
}

fn check_entries_backed(points: &Vec<Point>, entries: &Vec<Entry>) -> (r: bool)
    ensures
        ({
            let m = IndexModel { points: vpoints(points@), entries: ventries(entries@) };
            r == entries_have_points(m)
        }),
{
    let ghost m = IndexModel { points: vpoints(points@), entries: ventries(entries@) };
    let n = entries.len();
    let mut i: usize = 0;
    while i < n
        invariant
            m == (IndexModel { points: vpoints(points@), entries: ventries(entries@) }),
            n == entries@.len(),
            i <= n,
            forall|a: int| 0 <= a < i ==> has_point_with_key(m.points, (#[trigger] m.entries[a]).key),
        decreases n - i,
    {
        let mut j: usize = 0;
        let mut found = false;
        while j < points.len() && !found
            invariant
                m == (IndexModel { points: vpoints(points@), entries: ventries(entries@) }),
                i < n == entries@.len(),
                j <= points@.len(),
                found ==> has_point_with_key(m.points, m.entries[i as int].key),
                !found ==> forall|b: int| 0 <= b < j ==> (#[trigger] m.points[b]).key != m.entries[i as int].key,
            decreases points@.len() - j, (if found { 0int } else { 1int }),
        {
            if points[j].key == entries[i].key {
                found = true;
                proof {
                    assert(m.points[j as int].key == m.entries[i as int].key);
                }
            } else {
                j = j + 1;
            }
        }
        if !found {
            proof {
                assert(!has_point_with_key(m.points, m.entries[i as int].key));
            }
            return false;
        }
        i = i + 1;
    }
    true
}

fn check_points_dim(points: &Vec<Point>) -> (r: bool)
    ensures
        r == points_dim_ok(vpoints(points@)),
{
    let n = points.len();
    let mut i: usize = 0;
    while i < n
        invariant
            n == points@.len(),
            i <= n,
            forall|a: int| 0 <= a < i ==> (#[trigger] vpoints(points@)[a].vector).len() == crate::DIM,
        decreases n - i,
    {
        if points[i].vector.len() != crate::DIM {
            proof {
                assert(vpoints(points@)[i as int].vector.len() != crate::DIM);
            }
            return false;
        }
        i = i + 1;
    }
    true
}

/// The blob could not be decoded as a snapshot of this engine.
#[derive(Debug, PartialEq, Eq)]
pub enum DeserializeError {
    Malformed,
}

/// Decode a snapshot. An accepted blob is exactly the encoding of the
/// returned index — `deserialize` re-encodes what it parsed and compares —
/// and that index is well-formed. Conversely, success is owed: a blob that
/// is the encoding of any well-formed state is accepted, so
/// `deserialize(serialize(ix))` is `Ok`, and by
/// [`lemma_snapshot_determines_index`] it returns exactly `ix`'s state.
pub fn deserialize(blob: &Vec<char>) -> (r: Result<Index, DeserializeError>)
    ensures
        r matches Ok(ix) ==> ix.wf() && blob@ == encode_index(ix@) && snapshot_of(blob@, ix@),
        (exists|m: IndexModel| snapshot_of(blob@, m)) ==> r is Ok,
{
    match parse_index(blob) {
        None => {
            proof {
                if exists|m: IndexModel| snapshot_of(blob@, m) {
                    let m = choose|m: IndexModel| snapshot_of(blob@, m);
                    assert(encode_index(m) == blob@);
                    assert(false);
                }
            }
            Err(DeserializeError::Malformed)
        },
        Some((points, entries)) => {
            proof {
                if exists|m: IndexModel| snapshot_of(blob@, m) {
                    let m = choose|m: IndexModel| snapshot_of(blob@, m);
                    assert(encode_index(m) == blob@);
                    assert(vpoints(points@) == m.points && ventries(entries@) == m.entries);
                }
            }
            if !check_points_dim(&points) {
                proof {
                    if exists|m: IndexModel| snapshot_of(blob@, m) {
                        let m = choose|m: IndexModel| snapshot_of(blob@, m);
                        assert(encode_index(m) == blob@);
                        assert(false);
                    }
                }
                return Err(DeserializeError::Malformed);
            }
            if !check_keys_unique(&entries) {
                proof {
                    if exists|m: IndexModel| snapshot_of(blob@, m) {
                        let m = choose|m: IndexModel| snapshot_of(blob@, m);
                        assert(encode_index(m) == blob@);
                        assert(false);
                    }
                }
                return Err(DeserializeError::Malformed);
            }
            if !check_entries_backed(&points, &entries) {
                proof {
                    if exists|m: IndexModel| snapshot_of(blob@, m) {
                        let m = choose|m: IndexModel| snapshot_of(blob@, m);
                        assert(encode_index(m) == blob@);
                        assert((IndexModel { points: vpoints(points@), entries: ventries(entries@) }) == m);
                        assert(false);
                    }
                }
                return Err(DeserializeError::Malformed);
            }
            let ix = Index::from_parts(points, entries);
            let again = serialize(&ix);
            if chars_eq(&again, blob) {
                proof {
                    assert(wf_model(ix@));
                    assert(fits_u64(ix@.points.len()));
                    assert(fits_u64(ix@.entries.len()));
                    assert(entries_bounded(ix@.entries));
                }
                Ok(ix)
            } else {
                proof {
                    if exists|m: IndexModel| snapshot_of(blob@, m) {
                        let m = choose|m: IndexModel| snapshot_of(blob@, m);
                        assert(encode_index(m) == blob@);
                        assert(ix@ == m);
                        assert(false);
                    }
                }
                Err(DeserializeError::Malformed)
            }
        },
    }
}

// ---------------------------------------------------------------------------
// The snapshot determines the index
// ---------------------------------------------------------------------------

proof fn lemma_split_concat(a1: Seq<char>, b1: Seq<char>, a2: Seq<char>, b2: Seq<char>)
    requires
        a1 + b1 == a2 + b2,
        a1.len() == a2.len(),
    ensures
        a1 == a2,
        b1 == b2,
{
    assert(a1 =~= (a1 + b1).take(a1.len() as int));
    assert(a2 =~= (a2 + b2).take(a2.len() as int));
    assert(b1 =~= (a1 + b1).skip(a1.len() as int));
    assert(b2 =~= (a2 + b2).skip(a2.len() as int));
}

proof fn lemma_enc_u64_inj(a: u64, b: u64)
    requires
        enc_u64(a) == enc_u64(b),
    ensures
        a == b,
{
    assert forall|i: int| 0 <= i < 8 implies byte_of(a, i) == byte_of(b, i) by {
        assert(enc_u64(a)[i] == enc_u64(b)[i]);
        assert(byte_of(a, i) <= 0xff) by {
            let sh = (((7 - i) * 8) as u64);
            assert((a >> sh) & 0xff <= 0xff) by (bit_vector);
        }
        assert(byte_of(b, i) <= 0xff) by {
            let sh = (((7 - i) * 8) as u64);
            assert((b >> sh) & 0xff <= 0xff) by (bit_vector);
        }
        assert(enc_u64(a)[i] == (byte_of(a, i) as u8) as char);
        assert(enc_u64(b)[i] == (byte_of(b, i) as u8) as char);
        assert((byte_of(a, i) as u8) as char == (byte_of(b, i) as u8) as char);
        assert(byte_of(a, i) as u8 == byte_of(b, i) as u8);
        assert(byte_of(a, i) as u8 as u64 == byte_of(a, i));
        assert(byte_of(b, i) as u8 as u64 == byte_of(b, i));
    }
    assert(byte_of(a, 0) == (a >> 56) & 0xff && byte_of(a, 1) == (a >> 48) & 0xff
        && byte_of(a, 2) == (a >> 40) & 0xff && byte_of(a, 3) == (a >> 32) & 0xff
        && byte_of(a, 4) == (a >> 24) & 0xff && byte_of(a, 5) == (a >> 16) & 0xff
        && byte_of(a, 6) == (a >> 8) & 0xff && byte_of(a, 7) == (a >> 0) & 0xff);
    assert(byte_of(b, 0) == (b >> 56) & 0xff && byte_of(b, 1) == (b >> 48) & 0xff
        && byte_of(b, 2) == (b >> 40) & 0xff && byte_of(b, 3) == (b >> 32) & 0xff
        && byte_of(b, 4) == (b >> 24) & 0xff && byte_of(b, 5) == (b >> 16) & 0xff
        && byte_of(b, 6) == (b >> 8) & 0xff && byte_of(b, 7) == (b >> 0) & 0xff);
    assert(((a >> 56) & 0xff == (b >> 56) & 0xff && (a >> 48) & 0xff == (b >> 48) & 0xff
        && (a >> 40) & 0xff == (b >> 40) & 0xff && (a >> 32) & 0xff == (b >> 32) & 0xff
        && (a >> 24) & 0xff == (b >> 24) & 0xff && (a >> 16) & 0xff == (b >> 16) & 0xff
        && (a >> 8) & 0xff == (b >> 8) & 0xff && (a >> 0) & 0xff == (b >> 0) & 0xff)
        ==> a == b) by (bit_vector);
}

proof fn lemma_enc_u32_inj(a: u32, b: u32)
    requires
        enc_u32(a) == enc_u32(b),
    ensures
        a == b,
{
    assert forall|i: int| 0 <= i < 4 implies byte32_of(a, i) == byte32_of(b, i) by {
        assert(enc_u32(a)[i] == enc_u32(b)[i]);
        assert(byte32_of(a, i) <= 0xff) by {
            let sh = (((3 - i) * 8) as u32);
            assert((a >> sh) & 0xff <= 0xff) by (bit_vector);
        }
        assert(byte32_of(b, i) <= 0xff) by {
            let sh = (((3 - i) * 8) as u32);
            assert((b >> sh) & 0xff <= 0xff) by (bit_vector);
        }
        assert(enc_u32(a)[i] == (byte32_of(a, i) as u8) as char);
        assert(enc_u32(b)[i] == (byte32_of(b, i) as u8) as char);
        assert((byte32_of(a, i) as u8) as char == (byte32_of(b, i) as u8) as char);
        assert(byte32_of(a, i) as u8 == byte32_of(b, i) as u8);
        assert(byte32_of(a, i) as u8 as u32 == byte32_of(a, i));
        assert(byte32_of(b, i) as u8 as u32 == byte32_of(b, i));
    }
    assert(byte32_of(a, 0) == (a >> 24) & 0xff && byte32_of(a, 1) == (a >> 16) & 0xff
        && byte32_of(a, 2) == (a >> 8) & 0xff && byte32_of(a, 3) == (a >> 0) & 0xff);
    assert(byte32_of(b, 0) == (b >> 24) & 0xff && byte32_of(b, 1) == (b >> 16) & 0xff
        && byte32_of(b, 2) == (b >> 8) & 0xff && byte32_of(b, 3) == (b >> 0) & 0xff);
    assert(((a >> 24) & 0xff == (b >> 24) & 0xff && (a >> 16) & 0xff == (b >> 16) & 0xff
        && (a >> 8) & 0xff == (b >> 8) & 0xff && (a >> 0) & 0xff == (b >> 0) & 0xff)
        ==> a == b) by (bit_vector);
}

proof fn lemma_enc_vec_len(v: Seq<u32>)
    ensures
        enc_vec(v).len() == 4 * v.len(),
    decreases v.len(),
{
    if v.len() > 0 {
        lemma_enc_vec_len(v.drop_last());
    }
}

proof fn lemma_enc_vec_inj(v1: Seq<u32>, v2: Seq<u32>)
    requires
        enc_vec(v1) == enc_vec(v2),
        v1.len() == v2.len(),
    ensures
        v1 == v2,
    decreases v1.len(),
{
    if v1.len() > 0 {
        lemma_enc_vec_len(v1.drop_last());
        lemma_enc_vec_len(v2.drop_last());
        lemma_split_concat(enc_vec(v1.drop_last()), enc_u32(v1.last()),
            enc_vec(v2.drop_last()), enc_u32(v2.last()));
        lemma_enc_vec_inj(v1.drop_last(), v2.drop_last());
        lemma_enc_u32_inj(v1.last(), v2.last());
        assert(v1 =~= v1.drop_last().push(v1.last()));
        assert(v2 =~= v2.drop_last().push(v2.last()));
    } else {
        assert(v1 =~= v2);
    }
}

proof fn lemma_enc_points_len(ps: Seq<PointModel>)
    requires
        points_dim_ok(ps),
    ensures
        enc_points(ps).len() == ps.len() * (8 + 4 * crate::DIM),
    decreases ps.len(),
{
    if ps.len() > 0 {
        assert(points_dim_ok(ps.drop_last())) by {
            assert(forall|i: int| 0 <= i < ps.drop_last().len() ==> ps.drop_last()[i] == ps[i]);
        }
        lemma_enc_points_len(ps.drop_last());
        lemma_enc_vec_len(ps.last().vector);
        assert(ps.last().vector.len() == crate::DIM);
        let n = ps.len() as int;
        let c = (8 + 4 * crate::DIM) as int;
        assert(n * c == (n - 1) * c + c) by (nonlinear_arith);
    }
}

proof fn lemma_enc_points_inj(ps1: Seq<PointModel>, ps2: Seq<PointModel>)
    requires
        enc_points(ps1) == enc_points(ps2),
        ps1.len() == ps2.len(),
        points_dim_ok(ps1),
        points_dim_ok(ps2),
    ensures
        ps1 == ps2,
    decreases ps1.len(),
{
    if ps1.len() > 0 {
        assert(points_dim_ok(ps1.drop_last()) && points_dim_ok(ps2.drop_last())) by {
            assert(forall|i: int| 0 <= i < ps1.drop_last().len() ==> ps1.drop_last()[i] == ps1[i]);
            assert(forall|i: int| 0 <= i < ps2.drop_last().len() ==> ps2.drop_last()[i] == ps2[i]);
        }
        lemma_enc_points_len(ps1.drop_last());
        lemma_enc_points_len(ps2.drop_last());
        lemma_split_concat(enc_points(ps1.drop_last()), enc_point(ps1.last()),
            enc_points(ps2.drop_last()), enc_point(ps2.last()));
        lemma_enc_points_inj(ps1.drop_last(), ps2.drop_last());
        lemma_enc_vec_len(ps1.last().vector);
        lemma_enc_vec_len(ps2.last().vector);
        lemma_split_concat(enc_u64(ps1.last().key), enc_vec(ps1.last().vector),
            enc_u64(ps2.last().key), enc_vec(ps2.last().vector));
        lemma_enc_u64_inj(ps1.last().key, ps2.last().key);
        lemma_enc_vec_inj(ps1.last().vector, ps2.last().vector);
        assert(ps1.last() == ps2.last());
        assert(ps1 =~= ps1.drop_last().push(ps1.last()));
        assert(ps2 =~= ps2.drop_last().push(ps2.last()));
    } else {
        assert(ps1 =~= ps2);
    }
}

/// The character-count bound under which a length prefix is unambiguous.
pub open spec fn fits_u64(n: nat) -> bool {
    n < 0x10000000000000000
}

pub open spec fn entry_bounded(e: EntryModel) -> bool {
    fits_u64(e.doc.id.len()) && fits_u64(e.doc.title.len()) && fits_u64(e.doc.url.len())
}

pub open spec fn entries_bounded(es: Seq<EntryModel>) -> bool {
    forall|i: int| 0 <= i < es.len() ==> entry_bounded(#[trigger] es[i])
}

proof fn lemma_str_prefix(s1: Seq<char>, s2: Seq<char>, t1: Seq<char>, t2: Seq<char>)
    requires
        enc_str(s1) + t1 == enc_str(s2) + t2,
        fits_u64(s1.len()),
        fits_u64(s2.len()),
    ensures
        s1 == s2,
        t1 == t2,
{
    assert(enc_str(s1) + t1 =~= enc_u64(s1.len() as u64) + (s1 + t1));
    assert(enc_str(s2) + t2 =~= enc_u64(s2.len() as u64) + (s2 + t2));
    lemma_split_concat(enc_u64(s1.len() as u64), s1 + t1, enc_u64(s2.len() as u64), s2 + t2);
    lemma_enc_u64_inj(s1.len() as u64, s2.len() as u64);
    assert(s1.len() == s2.len());
    lemma_split_concat(s1, t1, s2, t2);
}

proof fn lemma_entry_prefix(e1: EntryModel, e2: EntryModel, t1: Seq<char>, t2: Seq<char>)
    requires
        enc_entry(e1) + t1 == enc_entry(e2) + t2,
        entry_bounded(e1),
        entry_bounded(e2),
    ensures
        e1 == e2,
        t1 == t2,
{
    assert(enc_entry(e1) + t1
        =~= enc_u64(e1.key) + (enc_str(e1.doc.id) + (enc_str(e1.doc.title) + (enc_str(e1.doc.url) + t1))));
    assert(enc_entry(e2) + t2
        =~= enc_u64(e2.key) + (enc_str(e2.doc.id) + (enc_str(e2.doc.title) + (enc_str(e2.doc.url) + t2))));
    lemma_split_concat(
        enc_u64(e1.key),
        enc_str(e1.doc.id) + (enc_str(e1.doc.title) + (enc_str(e1.doc.url) + t1)),
        enc_u64(e2.key),
        enc_str(e2.doc.id) + (enc_str(e2.doc.title) + (enc_str(e2.doc.url) + t2)),
    );
    lemma_enc_u64_inj(e1.key, e2.key);
    lemma_str_prefix(
        e1.doc.id,
        e2.doc.id,
        enc_str(e1.doc.title) + (enc_str(e1.doc.url) + t1),
        enc_str(e2.doc.title) + (enc_str(e2.doc.url) + t2),
    );
    lemma_str_prefix(e1.doc.title, e2.doc.title, enc_str(e1.doc.url) + t1, enc_str(e2.doc.url) + t2);
    lemma_str_prefix(e1.doc.url, e2.doc.url, t1, t2);
}

proof fn lemma_enc_entries_head(es: Seq<EntryModel>)
    requires
        es.len() > 0,
    ensures
        enc_entries(es) == enc_entry(es[0]) + enc_entries(es.drop_first()),
    decreases es.len(),
{
    if es.len() == 1 {
        assert(es.drop_last() =~= Seq::<EntryModel>::empty());
        assert(es.drop_first() =~= Seq::<EntryModel>::empty());
        assert(es.last() == es[0]);
        assert(enc_entries(es) =~= enc_entry(es[0]) + enc_entries(es.drop_first()));
    } else {
        lemma_enc_entries_head(es.drop_last());
        assert(es.drop_last()[0] == es[0]);
        assert(es.drop_first().drop_last() =~= es.drop_last().drop_first());
        assert(es.drop_first().last() == es.last());
        assert(enc_entries(es.drop_first())
            == enc_entries(es.drop_first().drop_last()) + enc_entry(es.drop_first().last()));
        assert(enc_entries(es)
            =~= (enc_entry(es[0]) + enc_entries(es.drop_last().drop_first())) + enc_entry(es.last()));
        assert((enc_entry(es[0]) + enc_entries(es.drop_last().drop_first())) + enc_entry(es.last())
            =~= enc_entry(es[0]) + (enc_entries(es.drop_last().drop_first()) + enc_entry(es.last())));
    }
}

proof fn lemma_entries_prefix(es1: Seq<EntryModel>, es2: Seq<EntryModel>, t1: Seq<char>, t2: Seq<char>)
    requires
        enc_entries(es1) + t1 == enc_entries(es2) + t2,
        es1.len() == es2.len(),
        entries_bounded(es1),
        entries_bounded(es2),
    ensures
        es1 == es2,
        t1 == t2,
    decreases es1.len(),
{
    if es1.len() == 0 {
        assert(enc_entries(es1) =~= Seq::<char>::empty());
        assert(enc_entries(es2) =~= Seq::<char>::empty());
        assert(t1 =~= enc_entries(es1) + t1);
        assert(t2 =~= enc_entries(es2) + t2);
        assert(es1 =~= es2);
    } else {
        lemma_enc_entries_head(es1);
        lemma_enc_entries_head(es2);
        assert(enc_entries(es1) + t1 =~= enc_entry(es1[0]) + (enc_entries(es1.drop_first()) + t1));
        assert(enc_entries(es2) + t2 =~= enc_entry(es2[0]) + (enc_entries(es2.drop_first()) + t2));
        lemma_entry_prefix(es1[0], es2[0], enc_entries(es1.drop_first()) + t1, enc_entries(es2.drop_first()) + t2);
        assert(entries_bounded(es1.drop_first()) && entries_bounded(es2.drop_first())) by {
            assert(forall|i: int| 0 <= i < es1.drop_first().len() ==> es1.drop_first()[i] == es1[i + 1]);
            assert(forall|i: int| 0 <= i < es2.drop_first().len() ==> es2.drop_first()[i] == es2[i + 1]);
        }
        lemma_entries_prefix(es1.drop_first(), es2.drop_first(), t1, t2);
        assert(es1 =~= seq![es1[0]] + es1.drop_first());
        assert(es2 =~= seq![es2[0]] + es2.drop_first());
    }
}

/// Two states with the same snapshot are the same state. Together with the
/// contracts of `serialize` (a well-formed index's blob is a snapshot of its
/// state) and `deserialize` (every snapshot is accepted, and an accepted
/// blob is a snapshot of the returned state), the round trip is lossless:
/// `deserialize(serialize(ix))` is `Ok` and returns exactly `ix`'s state.
pub proof fn lemma_round_trip(s: Seq<char>, m1: IndexModel, m2: IndexModel)
    requires
        snapshot_of(s, m1),
        snapshot_of(s, m2),
    ensures
        m1 == m2,
{
    lemma_snapshot_determines_index(m1, m2);
}

/// The snapshot encoding is injective: two well-formed index states with
/// the same encoding are the same state.
pub proof fn lemma_snapshot_determines_index(m1: IndexModel, m2: IndexModel)
    requires
        encode_index(m1) == encode_index(m2),
        points_dim_ok(m1.points),
        points_dim_ok(m2.points),
        fits_u64(m1.points.len()),
        fits_u64(m2.points.len()),
        fits_u64(m1.entries.len()),
        fits_u64(m2.entries.len()),
        entries_bounded(m1.entries),
        entries_bounded(m2.entries),
    ensures
        m1 == m2,
{
    assert(encode_index(m1) =~= header() + (enc_u64(m1.points.len() as u64) + (enc_points(m1.points)
        + (enc_u64(m1.entries.len() as u64) + enc_entries(m1.entries)))));
    assert(encode_index(m2) =~= header() + (enc_u64(m2.points.len() as u64) + (enc_points(m2.points)
        + (enc_u64(m2.entries.len() as u64) + enc_entries(m2.entries)))));
    lemma_split_concat(
        header(),
        enc_u64(m1.points.len() as u64) + (enc_points(m1.points)
            + (enc_u64(m1.entries.len() as u64) + enc_entries(m1.entries))),
        header(),
        enc_u64(m2.points.len() as u64) + (enc_points(m2.points)
            + (enc_u64(m2.entries.len() as u64) + enc_entries(m2.entries))),
    );
    lemma_split_concat(
        enc_u64(m1.points.len() as u64),
        enc_points(m1.points) + (enc_u64(m1.entries.len() as u64) + enc_entries(m1.entries)),
        enc_u64(m2.points.len() as u64),
        enc_points(m2.points) + (enc_u64(m2.entries.len() as u64) + enc_entries(m2.entries)),
    );
    lemma_enc_u64_inj(m1.points.len() as u64, m2.points.len() as u64);
    assert(m1.points.len() == m2.points.len());
    lemma_enc_points_len(m1.points);
    lemma_enc_points_len(m2.points);
    lemma_split_concat(
        enc_points(m1.points),
        enc_u64(m1.entries.len() as u64) + enc_entries(m1.entries),
        enc_points(m2.points),
        enc_u64(m2.entries.len() as u64) + enc_entries(m2.entries),
    );
    lemma_enc_points_inj(m1.points, m2.points);
    lemma_split_concat(
        enc_u64(m1.entries.len() as u64),
        enc_entries(m1.entries),
        enc_u64(m2.entries.len() as u64),
        enc_entries(m2.entries),
    );
    lemma_enc_u64_inj(m1.entries.len() as u64, m2.entries.len() as u64);
    lemma_entries_prefix(m1.entries, m2.entries, Seq::empty(), Seq::empty());
}

} // verus!
