//! Streaming transport: a framed-record writer and a sequential reader.
//!
//! The writer serialises entries in emission order and closes the stream
//! with the end sentinel. The reader walks the bytes strictly forward and
//! offers `peek` (idempotent, non-consuming), `next` (consume one entry)
//! and `skip` (consume up to `n` entries without touching their payload
//! bytes). A framing violation is reported as a malformed stream end, never
//! silently as a clean one.

use vstd::prelude::*;
use crate::codec::{advance_frame, decode_frame, encode_entry_into, entry_fits, lemma_decode_encode,
    spec_decode_frame, spec_encode_entry, spec_read_all, Frame, FrameV, TAG_END};
use crate::entry::{entry_views, Entry, EntryV};

verus! {

/// All entries of a sequence fit the frame length fields.
pub open spec fn all_fit(s: Seq<EntryV>) -> bool {
    forall|i: int| 0 <= i < s.len() ==> entry_fits(#[trigger] s[i])
}

/// The byte image of a whole stream: each entry framed in order, closed by
/// the end sentinel.
pub open spec fn spec_encode_stream(s: Seq<EntryV>) -> Seq<u8>
    decreases s.len(),
{
    if s.len() == 0 {
        seq![TAG_END]
    } else {
        spec_encode_entry(s[0]) + spec_encode_stream(s.drop_first())
    }
}

/// Decoding an encoded stream yields the original entries and a clean end.
pub proof fn lemma_stream_round_trip(b: Seq<u8>, pos: int, s: Seq<EntryV>)
    requires
        all_fit(s),
        0 <= pos,
        pos + spec_encode_stream(s).len() == b.len(),
        b.subrange(pos, b.len() as int) == spec_encode_stream(s),
    ensures
        spec_read_all(b, pos) == (s, true),
    decreases s.len(),
{
    let enc = spec_encode_stream(s);
    if s.len() == 0 {
        assert(b[pos] == TAG_END) by {
            assert(b.subrange(pos, b.len() as int)[0] == enc[0]);
        }
        assert(spec_read_all(b, pos) == (Seq::<EntryV>::empty(), true));
        assert(s =~= Seq::<EntryV>::empty());
    } else {
        let e = s[0];
        let e_enc = spec_encode_entry(e);
        let rest = spec_encode_stream(s.drop_first());
        assert(enc == e_enc + rest);
        assert(b.subrange(pos, pos + e_enc.len() as int) =~= e_enc) by {
            assert forall|k: int| 0 <= k < e_enc.len() implies #[trigger] b.subrange(
                pos,
                pos + e_enc.len() as int,
            )[k] == e_enc[k] by {
                assert(b.subrange(pos, b.len() as int)[k] == enc[k]);
            }
        }
        assert(entry_fits(e));
        lemma_decode_encode(e, b, pos);
        let c = e_enc.len() as int;
        assert(b.subrange(pos + c, b.len() as int) =~= rest) by {
            assert forall|k: int| 0 <= k < rest.len() implies #[trigger] b.subrange(
                pos + c,
                b.len() as int,
            )[k] == rest[k] by {
                assert(b.subrange(pos, b.len() as int)[c + k] == enc[c + k]);
            }
        }
        assert(all_fit(s.drop_first())) by {
            assert(forall|i: int| 0 <= i < s.drop_first().len() ==> #[trigger] s.drop_first()[i]
                == s[i + 1]);
        }
        lemma_stream_round_trip(b, pos + c, s.drop_first());
        assert(spec_read_all(b, pos) == (seq![e] + s.drop_first(), true));
        assert(seq![e] + s.drop_first() =~= s);
    }
}

/// Writer side of the transport: frames entries into a growing buffer.
pub struct FrameWriter {
    /// Bytes framed so far, in emission order, without the end sentinel.
    pub buf: Vec<u8>,
}

impl FrameWriter {
    /// An empty stream under construction.
    pub fn new() -> (r: FrameWriter)
        ensures
            r.buf@ == Seq::<u8>::empty(),
    {
        FrameWriter { buf: Vec::new() }
    }

    /// Frame one entry at the end of the stream.
    pub fn write_entry(&mut self, e: &Entry)
        ensures
            final(self).buf@ == old(self).buf@ + spec_encode_entry(e@),
    {
        encode_entry_into(&mut self.buf, e);
    }

    /// Close the stream with the end sentinel and hand the bytes over.
    pub fn finish(self) -> (r: Vec<u8>)
        ensures
            r@ == self.buf@ + seq![TAG_END],
    {
        let mut buf = self.buf;
        buf.push(TAG_END);
        buf
    }
}

/// Frame an entire walk output as one stream.
pub fn encode_stream(entries: &Vec<Entry>) -> (r: Vec<u8>)
    ensures
        r@ == spec_encode_stream(entry_views(entries@)),
{
    let mut w = FrameWriter::new();
    let ghost evs = entry_views(entries@);
    proof {
        assert(evs.skip(0) =~= evs);
        assert(Seq::<u8>::empty() + spec_encode_stream(evs) =~= spec_encode_stream(evs));
    }
    let mut i: usize = 0;
    while i < entries.len()
        invariant
            i <= entries.len(),
            evs == entry_views(entries@),
            evs.len() == entries@.len(),
            spec_encode_stream(evs) == w.buf@ + spec_encode_stream(evs.skip(i as int)),
        decreases entries.len() - i,
    {
        let ghost pre = w.buf@;
        w.write_entry(&entries[i]);
        proof {
            assert(evs.skip(i as int)[0] == evs[i as int]);
            assert(evs[i as int] == entries@[i as int]@);
            assert(evs.skip(i as int).drop_first() =~= evs.skip(i as int + 1));
            assert(spec_encode_stream(evs.skip(i as int)) == spec_encode_entry(evs[i as int])
                + spec_encode_stream(evs.skip(i as int + 1)));
            assert(w.buf@ + spec_encode_stream(evs.skip(i as int + 1)) =~= pre + (spec_encode_entry(
                evs[i as int],
            ) + spec_encode_stream(evs.skip(i as int + 1))));
        }
        i = i + 1;
    }
    proof {
        assert(evs.skip(entries@.len() as int) =~= Seq::<EntryV>::empty());
        assert(spec_encode_stream(evs) =~= w.buf@ + seq![TAG_END]);
    }
    w.finish()
}

/// What a `peek` of the stream head reports.
pub enum Peeked {
    /// The next entry, left unconsumed.
    Item(Entry),
    /// Clean end of stream.
    End,
    /// The bytes ahead violate the framing.
    Malformed,
}

/// Reader side of the transport: strictly sequential, no random access.
pub struct FrameReader {
    /// The received stream bytes.
    pub buf: Vec<u8>,
    /// Read position; only ever advances.
    pub pos: usize,
}

impl FrameReader {
    /// The entries not yet consumed, up to the end sentinel or the first
    /// framing violation.
    pub open spec fn remaining(&self) -> Seq<EntryV> {
        spec_read_all(self.buf@, self.pos as int).0
    }

    /// Whether the stream ends cleanly after the remaining entries.
    pub open spec fn clean(&self) -> bool {
        spec_read_all(self.buf@, self.pos as int).1
    }

    /// Start reading a received stream from its first byte.
    pub fn new(buf: Vec<u8>) -> (r: FrameReader)
        ensures
            r.remaining() == spec_read_all(buf@, 0).0,
            r.clean() == spec_read_all(buf@, 0).1,
    {
        FrameReader { buf, pos: 0 }
    }

    /// Report the next entry without consuming it. Repeated calls with no
    /// intervening consume return the same answer.
    pub fn peek(&self) -> (r: Peeked)
        ensures
            (r is Item) == (self.remaining().len() > 0),
            r matches Peeked::Item(e) ==> e@ == self.remaining()[0],
            (r is End) == (self.remaining().len() == 0 && self.clean()),
            (r is Malformed) == (self.remaining().len() == 0 && !self.clean()),
    {
        match decode_frame(&self.buf, self.pos) {
            None => Peeked::Malformed,
            Some((Frame::End, _)) => Peeked::End,
            Some((Frame::Item(e), _)) => Peeked::Item(e),
        }
    }

    /// Consume and return the next entry, if one is ahead; at end of stream
    /// or on malformed bytes nothing is consumed.
    pub fn next(&mut self) -> (r: Option<Entry>)
        ensures
            (r is Some) == (old(self).remaining().len() > 0),
            r matches Some(e) ==> e@ == old(self).remaining()[0],
            final(self).buf@ == old(self).buf@,
            final(self).clean() == old(self).clean(),
            old(self).remaining().len() > 0 ==> final(self).remaining() == old(
                self,
            ).remaining().drop_first(),
            old(self).remaining().len() == 0 ==> *final(self) == *old(self),
    {
        match decode_frame(&self.buf, self.pos) {
            None => None,
            Some((Frame::End, _)) => None,
            Some((Frame::Item(e), np)) => {
                self.pos = np;
                Some(e)
            },
        }
    }

    /// Consume and discard up to `n` entries, skipping their payload bytes
    /// by length instead of materialising them. Returns how many entries
    /// were discarded: `n`, unless the stream ends first.
    pub fn skip(&mut self, n: usize) -> (k: usize)
        ensures
            k == if n <= old(self).remaining().len() {
                n as int
            } else {
                old(self).remaining().len() as int
            },
            final(self).buf@ == old(self).buf@,
            final(self).clean() == old(self).clean(),
            final(self).remaining() == old(self).remaining().skip(k as int),
    {
        let mut k: usize = 0;
        proof {
            assert(self.remaining().skip(0) =~= self.remaining());
        }
        while k < n
            invariant
                k <= n,
                k <= old(self).remaining().len(),
                self.buf@ == old(self).buf@,
                self.clean() == old(self).clean(),
                self.remaining() == old(self).remaining().skip(k as int),
                k < n ==> k == old(self).remaining().len() || self.remaining().len() > 0,
            decreases n - k,
        {
            match advance_frame(&self.buf, self.pos) {
                None => {
                    proof {
                        assert(self.remaining().len() == 0);
                        assert(old(self).remaining().skip(k as int).len() == 0);
                    }
                    return k;
                },
                Some((false, _)) => {
                    proof {
                        assert(self.remaining().len() == 0);
                    }
                    return k;
                },
                Some((true, np)) => {
                    proof {
                        assert(self.remaining().len() > 0);
                        assert(spec_read_all(self.buf@, np as int).0 =~= self.remaining(
                        ).drop_first());
                        assert(old(self).remaining().skip(k as int).drop_first() =~= old(
                            self,
                        ).remaining().skip(k as int + 1));
                    }
                    self.pos = np;
                    k = k + 1;
                },
            }
        }
        k
    }
}

/// Skipping `k` entries and peeking is the same as peeking after `k`
/// one-by-one consumes: both observe element `k` of the stream.
pub proof fn lemma_skip_then_peek(s: Seq<EntryV>, k: int)
    requires
        0 <= k <= s.len(),
    ensures
        k < s.len() ==> s.skip(k)[0] == s[k],
        k == s.len() ==> s.skip(k).len() == 0,
{
}

} // verus!
