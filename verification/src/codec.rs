//! Streaming frame codec.
//!
//! Each entry travels between a walker and its consumer as one framed
//! record: a tag byte, the name length and name bytes, and — when present —
//! the metadata length and metadata bytes. End-of-stream is a dedicated
//! sentinel tag, distinguishable from any entry, including one with an
//! empty name. Lengths are 64-bit little-endian, so every entry that fits
//! in memory can be framed.

use vstd::bytes::{spec_u64_from_le_bytes, spec_u64_to_le_bytes, u64_from_le_bytes, u64_to_le_bytes,
    lemma_auto_spec_u64_to_from_le_bytes};
use vstd::prelude::*;
use vstd::slice::{slice_subrange, slice_to_vec};
use crate::entry::{Entry, EntryV};

verus! {

/// Sentinel tag: end of a well-formed stream.
pub const TAG_END: u8 = 0;

/// Tag of an entry without metadata (a directory marker).
pub const TAG_BARE: u8 = 1;

/// Tag of an entry carrying a metadata payload.
pub const TAG_META: u8 = 2;

/// A decoded frame: either one entry or the end-of-stream sentinel.
pub enum Frame {
    Item(Entry),
    End,
}

/// Mathematical image of a [`Frame`].
pub enum FrameV {
    Item(EntryV),
    End,
}

impl View for Frame {
    type V = FrameV;

    open spec fn view(&self) -> FrameV {
        match self {
            Frame::Item(e) => FrameV::Item(e@),
            Frame::End => FrameV::End,
        }
    }
}

/// Whether an entry's name and payload lengths fit the 64-bit length fields.
pub open spec fn entry_fits(e: EntryV) -> bool {
    &&& e.name.len() <= u64::MAX
    &&& match e.metadata {
        Some(m) => m.len() <= u64::MAX,
        None => true,
    }
}

/// The framed encoding of one entry.
pub open spec fn spec_encode_entry(e: EntryV) -> Seq<u8> {
    match e.metadata {
        None => seq![TAG_BARE] + spec_u64_to_le_bytes(e.name.len() as u64) + e.name,
        Some(m) => seq![TAG_META] + spec_u64_to_le_bytes(e.name.len() as u64) + e.name
            + spec_u64_to_le_bytes(m.len() as u64) + m,
    }
}

/// The decoding of the frame that starts at `pos`: the frame and the number
/// of bytes it occupies, or `None` when the bytes at `pos` are malformed.
pub open spec fn spec_decode_frame(b: Seq<u8>, pos: int) -> Option<(FrameV, int)> {
    if !(0 <= pos < b.len()) {
        None
    } else if b[pos] == TAG_END {
        Some((FrameV::End, 1))
    } else if b[pos] == TAG_BARE || b[pos] == TAG_META {
        if pos + 9 > b.len() {
            None
        } else {
            let nlen = spec_u64_from_le_bytes(b.subrange(pos + 1, pos + 9)) as int;
            if pos + 9 + nlen > b.len() {
                None
            } else {
                let name = b.subrange(pos + 9, pos + 9 + nlen);
                if b[pos] == TAG_BARE {
                    Some((FrameV::Item(EntryV { name, metadata: None }), 9 + nlen))
                } else if pos + 9 + nlen + 8 > b.len() {
                    None
                } else {
                    let mstart = pos + 9 + nlen + 8;
                    let mlen = spec_u64_from_le_bytes(b.subrange(pos + 9 + nlen, mstart)) as int;
                    if mstart + mlen > b.len() {
                        None
                    } else {
                        let meta = b.subrange(mstart, mstart + mlen);
                        Some((FrameV::Item(EntryV { name, metadata: Some(meta) }), 9 + nlen + 8
                            + mlen))
                    }
                }
            }
        }
    } else {
        None
    }
}

/// Everything a well-formed decoder yields from `pos` on: the entries up to
/// the end sentinel, and whether the stream ended cleanly (`true`) or ran
/// into malformed bytes (`false`).
pub open spec fn spec_read_all(b: Seq<u8>, pos: int) -> (Seq<EntryV>, bool)
    decreases b.len() - pos,
{
    match spec_decode_frame(b, pos) {
        None => (seq![], false),
        Some((f, c)) => match f {
            FrameV::End => (seq![], true),
            FrameV::Item(e) => {
                let rest = spec_read_all(b, pos + c);
                (seq![e] + rest.0, rest.1)
            },
        },
    }
}

/// A window cut out of a larger window equals the same cut of its image.
proof fn lemma_subrange_shift(b: Seq<u8>, pos: int, enc: Seq<u8>, i: int, j: int)
    requires
        0 <= pos,
        pos + enc.len() <= b.len(),
        b.subrange(pos, pos + enc.len()) == enc,
        0 <= i <= j <= enc.len(),
    ensures
        b.subrange(pos + i, pos + j) =~= enc.subrange(i, j),
{
    assert forall|k: int| 0 <= k < j - i implies #[trigger] b.subrange(pos + i, pos + j)[k]
        == enc.subrange(i, j)[k] by {
        assert(b.subrange(pos, pos + enc.len())[i + k] == enc[i + k]);
    }
}

/// Round trip for a single frame: decoding bytes that start with the
/// encoding of an entry reproduces that entry exactly — name, payload
/// presence and payload bytes — and consumes exactly its encoding.
pub proof fn lemma_decode_encode(e: EntryV, b: Seq<u8>, pos: int)
    requires
        entry_fits(e),
        0 <= pos,
        pos + spec_encode_entry(e).len() <= b.len(),
        b.subrange(pos, pos + spec_encode_entry(e).len()) == spec_encode_entry(e),
    ensures
        spec_decode_frame(b, pos) == Some((FrameV::Item(e), spec_encode_entry(e).len() as int)),
{
    lemma_auto_spec_u64_to_from_le_bytes();
    let enc = spec_encode_entry(e);
    let nlen = e.name.len() as int;
    assert(spec_u64_to_le_bytes(e.name.len() as u64).len() == 8);
    assert(b[pos] == enc[0]) by {
        assert(b.subrange(pos, pos + enc.len())[0] == enc[0]);
    }
    lemma_subrange_shift(b, pos, enc, 1, 9);
    assert(enc.subrange(1, 9) =~= spec_u64_to_le_bytes(e.name.len() as u64));
    assert(spec_u64_from_le_bytes(b.subrange(pos + 1, pos + 9)) as int == nlen);
    lemma_subrange_shift(b, pos, enc, 9, 9 + nlen);
    assert(enc.subrange(9, 9 + nlen) =~= e.name);
    assert(b.subrange(pos + 9, pos + 9 + nlen) =~= e.name);
    match e.metadata {
        None => {
            assert(enc[0] == TAG_BARE);
            assert(spec_decode_frame(b, pos) == Some(
                (FrameV::Item(EntryV { name: e.name, metadata: None }), 9 + nlen),
            ));
            assert(EntryV { name: e.name, metadata: None } == e);
            assert(enc.len() == 9 + nlen);
        },
        Some(m) => {
            let mlen = m.len() as int;
            assert(enc[0] == TAG_META);
            assert(spec_u64_to_le_bytes(m.len() as u64).len() == 8);
            assert(enc.len() == 9 + nlen + 8 + mlen);
            lemma_subrange_shift(b, pos, enc, 9 + nlen, 9 + nlen + 8);
            assert(enc.subrange(9 + nlen, 9 + nlen + 8) =~= spec_u64_to_le_bytes(m.len() as u64));
            assert(spec_u64_from_le_bytes(b.subrange(pos + 9 + nlen, pos + 9 + nlen + 8)) as int
                == mlen);
            lemma_subrange_shift(b, pos, enc, 9 + nlen + 8, 9 + nlen + 8 + mlen);
            assert(enc.subrange(9 + nlen + 8, 9 + nlen + 8 + mlen) =~= m);
            assert(b.subrange(pos + 9 + nlen + 8, pos + 9 + nlen + 8 + mlen) =~= m);
            assert(EntryV { name: e.name, metadata: Some(m) } == e);
        },
    }
}

/// Round trip at the origin: decoding the encoding of any entry yields that
/// entry back, including the case of absent metadata.
pub proof fn lemma_frame_round_trip(e: EntryV)
    requires
        entry_fits(e),
    ensures
        spec_decode_frame(spec_encode_entry(e), 0) == Some(
            (FrameV::Item(e), spec_encode_entry(e).len() as int),
        ),
{
    let enc = spec_encode_entry(e);
    assert(enc.subrange(0, enc.len() as int) =~= enc);
    lemma_decode_encode(e, enc, 0);
}

/// Append the encoding of one entry to a byte buffer.
pub fn encode_entry_into(buf: &mut Vec<u8>, e: &Entry)
    ensures
        final(buf)@ == old(buf)@ + spec_encode_entry(e@),
{
    let ghost buf0 = buf@;
    match &e.metadata {
        None => {
            buf.push(TAG_BARE);
            let len_bytes = u64_to_le_bytes(e.name.len() as u64);
            buf.extend_from_slice(len_bytes.as_slice());
            buf.extend_from_slice(e.name.as_slice());
            proof {
                assert(buf@ =~= buf0 + spec_encode_entry(e@));
            }
        },
        Some(m) => {
            buf.push(TAG_META);
            let len_bytes = u64_to_le_bytes(e.name.len() as u64);
            buf.extend_from_slice(len_bytes.as_slice());
            buf.extend_from_slice(e.name.as_slice());
            let mlen_bytes = u64_to_le_bytes(m.len() as u64);
            buf.extend_from_slice(mlen_bytes.as_slice());
            buf.extend_from_slice(m.as_slice());
            proof {
                assert(buf@ =~= buf0 + spec_encode_entry(e@));
            }
        },
    }
}

/// Decode the frame that starts at `pos`, materialising the entry's bytes.
pub fn decode_frame(buf: &Vec<u8>, pos: usize) -> (r: Option<(Frame, usize)>)
    ensures
        (r is Some) == (spec_decode_frame(buf@, pos as int) is Some),
        r matches Some(p) ==> spec_decode_frame(buf@, pos as int) == Some(
            (p.0@, p.1 - pos as int),
        ) && pos < p.1 <= buf.len(),
{
    if pos >= buf.len() {
        return None;
    }
    let tag = buf[pos];
    if tag == TAG_END {
        return Some((Frame::End, pos + 1));
    }
    if tag != TAG_BARE && tag != TAG_META {
        return None;
    }
    if buf.len() - pos < 9 {
        return None;
    }
    let nlen64 = u64_from_le_bytes(slice_subrange(buf.as_slice(), pos + 1, pos + 9));
    let avail = buf.len() - (pos + 9);
    if nlen64 > avail as u64 {
        return None;
    }
    let nlen = nlen64 as usize;
    let name_end = pos + 9 + nlen;
    let name = slice_to_vec(slice_subrange(buf.as_slice(), pos + 9, name_end));
    if tag == TAG_BARE {
        return Some((Frame::Item(Entry { name, metadata: None }), name_end));
    }
    if buf.len() - name_end < 8 {
        return None;
    }
    let mlen64 = u64_from_le_bytes(slice_subrange(buf.as_slice(), name_end, name_end + 8));
    let avail2 = buf.len() - (name_end + 8);
    if mlen64 > avail2 as u64 {
        return None;
    }
    let mlen = mlen64 as usize;
    let meta = slice_to_vec(slice_subrange(buf.as_slice(), name_end + 8, name_end + 8 + mlen));
    Some((Frame::Item(Entry { name, metadata: Some(meta) }), name_end + 8 + mlen))
}

/// Step over the frame that starts at `pos` without copying its payload:
/// only the lengths are read, so a consumer can discard entries cheaply.
pub fn advance_frame(buf: &Vec<u8>, pos: usize) -> (r: Option<(bool, usize)>)
    ensures
        (r is Some) == (spec_decode_frame(buf@, pos as int) is Some),
        r matches Some(p) ==> spec_decode_frame(buf@, pos as int) matches Some(q) && p.0 == (
        q.0 is Item) && p.1 == pos + q.1 && pos < p.1 <= buf.len(),
{
    if pos >= buf.len() {
        return None;
    }
    let tag = buf[pos];
    if tag == TAG_END {
        return Some((false, pos + 1));
    }
    if tag != TAG_BARE && tag != TAG_META {
        return None;
    }
    if buf.len() - pos < 9 {
        return None;
    }
    let nlen64 = u64_from_le_bytes(slice_subrange(buf.as_slice(), pos + 1, pos + 9));
    let avail = buf.len() - (pos + 9);
    if nlen64 > avail as u64 {
        return None;
    }
    let nlen = nlen64 as usize;
    let name_end = pos + 9 + nlen;
    if tag == TAG_BARE {
        return Some((true, name_end));
    }
    if buf.len() - name_end < 8 {
        return None;
    }
    let mlen64 = u64_from_le_bytes(slice_subrange(buf.as_slice(), name_end, name_end + 8));
    let avail2 = buf.len() - (name_end + 8);
    if mlen64 > avail2 as u64 {
        return None;
    }
    let mlen = mlen64 as usize;
    Some((true, name_end + 8 + mlen))
}

} // verus!
