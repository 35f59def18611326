//! Byte-level utilities for the wire transports.
//!
//! A record travels between peers as `len | tag | payload`, with `len` and
//! `tag` as eight little-endian bytes and `payload` as `len` opaque bytes.
//! Several records may be concatenated on one persistent connection; the
//! framing here preserves record boundaries exactly, and the parser is the
//! inverse of the encoder over any sequence of records.

use vstd::bytes::{
    lemma_auto_spec_u64_to_from_le_bytes, spec_u64_from_le_bytes, spec_u64_to_le_bytes,
    u64_from_le_bytes, u64_to_le_bytes,
};
use vstd::prelude::*;
use vstd::slice::{slice_subrange, slice_to_vec};

verus! {

/// Two to the power `n`.
pub open spec fn pow2s(n: nat) -> nat
    decreases n,
{
    if n == 0 {
        1
    } else {
        2 * pow2s((n - 1) as nat)
    }
}

/// A power of two strictly dominates its exponent.
proof fn lemma_pow2s_ge(n: nat)
    ensures
        pow2s(n) >= n + 1,
    decreases n,
{
    if n > 0 {
        lemma_pow2s_ge((n - 1) as nat);
    }
}

/// Computes the log-base-two of the next power of two: the smallest `r`
/// with `x <= pow2s(r)`.
pub fn ceil_log2(x: usize) -> (r: usize)
    requires
        x <= usize::MAX / 2 + 1,
    ensures
        x <= pow2s(r as nat),
        r > 0 ==> pow2s((r - 1) as nat) < x,
{
    let mut n: usize = 0;
    let mut p: usize = 1;
    while p < x
        invariant
            x <= usize::MAX / 2 + 1,
            1 <= p,
            p == pow2s(n as nat),
            n > 0 ==> pow2s((n - 1) as nat) < x,
            n < p,
        decreases x - n,
    {
        proof {
            lemma_pow2s_ge(n as nat);
        }
        n = n + 1;
        p = p * 2;
    }
    n
}

/// The wire image of one record: eight little-endian bytes of payload
/// length, eight little-endian bytes of tag, then the payload.
pub open spec fn frame_bytes(payload: Seq<u8>, tag: u64) -> Seq<u8> {
    spec_u64_to_le_bytes(payload.len() as u64) + spec_u64_to_le_bytes(tag) + payload
}

/// The wire image of a sequence of records, concatenated in order.
pub open spec fn frames_bytes(records: Seq<(Seq<u8>, u64)>) -> Seq<u8>
    decreases records.len(),
{
    if records.len() == 0 {
        Seq::empty()
    } else {
        frame_bytes(records[0].0, records[0].1) + frames_bytes(records.drop_first())
    }
}

/// Every payload of the records fits in the eight-byte length field.
pub open spec fn frames_fit(records: Seq<(Seq<u8>, u64)>) -> bool {
    forall|i: int| 0 <= i < records.len() ==> (#[trigger] records[i]).0.len() <= u64::MAX
}

/// Parses a byte sequence as a concatenation of framed records; `None`
/// when the bytes are not exactly such a concatenation.
pub open spec fn spec_parse_frames(data: Seq<u8>) -> Option<Seq<(Seq<u8>, u64)>>
    decreases data.len(),
{
    if data.len() == 0 {
        Some(Seq::empty())
    } else if data.len() < 16 {
        None
    } else {
        let n = spec_u64_from_le_bytes(data.subrange(0, 8)) as int;
        let tag = spec_u64_from_le_bytes(data.subrange(8, 16));
        if data.len() < 16 + n {
            None
        } else {
            match spec_parse_frames(data.skip(16 + n)) {
                Some(rest) => Some(seq![(data.subrange(16, 16 + n), tag)] + rest),
                None => None,
            }
        }
    }
}

/// Framing is lossless: parsing the concatenated wire image of any
/// records yields exactly those records, in order.
pub proof fn lemma_frames_round_trip(records: Seq<(Seq<u8>, u64)>)
    requires
        frames_fit(records),
    ensures
        spec_parse_frames(frames_bytes(records)) == Some(records),
    decreases records.len(),
{
    lemma_auto_spec_u64_to_from_le_bytes();
    if records.len() == 0 {
    } else {
        let payload = records[0].0;
        let tag = records[0].1;
        let head = frame_bytes(payload, tag);
        let rest = frames_bytes(records.drop_first());
        let data = frames_bytes(records);
        assert(data == head + rest);
        assert(head.len() == 16 + payload.len());
        assert(data.subrange(0, 8) =~= spec_u64_to_le_bytes(payload.len() as u64));
        assert(data.subrange(8, 16) =~= spec_u64_to_le_bytes(tag));
        let n = spec_u64_from_le_bytes(data.subrange(0, 8)) as int;
        assert(n == payload.len());
        assert(data.subrange(16, 16 + n) =~= payload);
        assert(data.skip(16 + n) =~= rest);
        lemma_frames_round_trip(records.drop_first());
        assert(seq![(data.subrange(16, 16 + n), spec_u64_from_le_bytes(data.subrange(8, 16)))]
            + records.drop_first() =~= records);
    }
}

/// Frames one record for the wire.
pub fn encode_frame(payload: Vec<u8>, tag: u64) -> (r: Vec<u8>)
    requires
        payload@.len() <= u64::MAX,
    ensures
        r@ == frame_bytes(payload@, tag),
{
    let len = payload.len() as u64;
    let ghost payload_view = payload@;
    let mut r = u64_to_le_bytes(len);
    let mut tag_bytes = u64_to_le_bytes(tag);
    let mut body = payload;
    r.append(&mut tag_bytes);
    r.append(&mut body);
    proof {
        assert(r@ =~= frame_bytes(payload_view, tag));
    }
    r
}

/// Splits a buffer into the framed records it concatenates, or reports
/// `None` when the buffer is not exactly a concatenation of records.
pub fn parse_frames(data: &Vec<u8>) -> (r: Option<Vec<(Vec<u8>, u64)>>)
    ensures
        match r {
            Some(records) => spec_parse_frames(data@) == Some(records@.map_values(
                |t: (Vec<u8>, u64)| (t.0@, t.1))),
            None => spec_parse_frames(data@) == None::<Seq<(Seq<u8>, u64)>>,
        },
{
    let mut records: Vec<(Vec<u8>, u64)> = Vec::new();
    let mut pos: usize = 0;
    proof {
        assert(data@.skip(0) =~= data@);
        assert(records@.map_values(|t: (Vec<u8>, u64)| (t.0@, t.1)) =~= Seq::<(Seq<u8>,
            u64)>::empty());
    }
    loop
        invariant
            pos <= data@.len(),
            spec_parse_frames(data@) == (match spec_parse_frames(data@.skip(pos as int)) {
                Some(rest) => Some(records@.map_values(|t: (Vec<u8>, u64)| (t.0@, t.1))
                    + rest),
                None => None::<Seq<(Seq<u8>, u64)>>,
            }),
        decreases data@.len() - pos,
    {
        let remaining = data.len() - pos;
        let ghost d = data@.skip(pos as int);
        if remaining == 0 {
            proof {
                assert(spec_parse_frames(d) == Some(Seq::<(Seq<u8>, u64)>::empty()));
                assert(records@.map_values(|t: (Vec<u8>, u64)| (t.0@, t.1))
                    + Seq::<(Seq<u8>, u64)>::empty() =~= records@.map_values(
                    |t: (Vec<u8>, u64)| (t.0@, t.1)));
            }
            return Some(records);
        }
        if remaining < 16 {
            return None;
        }
        let len_slice = slice_subrange(data.as_slice(), pos, pos + 8);
        let n = u64_from_le_bytes(len_slice);
        let tag_slice = slice_subrange(data.as_slice(), pos + 8, pos + 16);
        let tag = u64_from_le_bytes(tag_slice);
        proof {
            assert(len_slice@ =~= d.subrange(0, 8));
            assert(tag_slice@ =~= d.subrange(8, 16));
        }
        if n > (remaining - 16) as u64 {
            return None;
        }
        let n_size = n as usize;
        let payload_slice = slice_subrange(data.as_slice(), pos + 16, pos + 16 + n_size);
        let payload = slice_to_vec(payload_slice);
        let ghost old_records = records@;
        records.push((payload, tag));
        proof {
            assert(payload@ =~= d.subrange(16, 16 + n as int));
            assert(d.skip(16 + n as int) =~= data@.skip(pos as int + 16 + n as int));
            assert(spec_parse_frames(d) == (match spec_parse_frames(data@.skip(
                pos as int + 16 + n as int)) {
                Some(rest2) => Some(seq![(payload@, tag)] + rest2),
                None => None::<Seq<(Seq<u8>, u64)>>,
            }));
            assert(records@.map_values(|t: (Vec<u8>, u64)| (t.0@, t.1))
                =~= old_records.map_values(|t: (Vec<u8>, u64)| (t.0@, t.1)).push(
                (payload@, tag)));
            assert forall|rest2: Seq<(Seq<u8>, u64)>| true implies old_records.map_values(
                |t: (Vec<u8>, u64)| (t.0@, t.1)) + (seq![(payload@, tag)] + rest2)
                =~= records@.map_values(|t: (Vec<u8>, u64)| (t.0@, t.1)) + rest2 by {}
        }
        pos = pos + 16 + n_size;
    }
}

} // verus!
