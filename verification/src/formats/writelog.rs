//! WriteLogs are sequences of length-prefixed records of arbitrary data.
//!
//! A WriteLog is an ordered sequence of byte strings laid out as
//! `llllbbbbbbllllbbllllbbbbbbbbb...`, where every entry is prefixed by its
//! length in 4 big-endian bytes. A complete stream ends on an entry
//! boundary; a reader treats a stream that ends in the middle of an entry
//! as exhausted at the last complete entry.

use vstd::prelude::*;
use crate::phases::output::SinkGenerator;
use crate::record_types::RecordView;

verus! {

/// The unsigned value of 4 big-endian bytes.
pub open spec fn be32(s: Seq<u8>) -> u32
    recommends
        s.len() == 4,
{
    (((s[0] as u32) << 24) | ((s[1] as u32) << 16) | ((s[2] as u32) << 8) | (s[3] as u32)) as u32
}

/// The 4 big-endian bytes of a 32-bit value.
pub open spec fn u32_be(v: u32) -> Seq<u8> {
    seq![
        ((v >> 24) & 0xff) as u8,
        ((v >> 16) & 0xff) as u8,
        ((v >> 8) & 0xff) as u8,
        (v & 0xff) as u8,
    ]
}

/// An entry as laid out on the stream: length prefix, then payload.
pub open spec fn encode_entry(e: Seq<u8>) -> Seq<u8>
    recommends
        e.len() < 0x100000000,
{
    u32_be(e.len() as u32) + e
}

/// A whole stream: the entries' encodings, one after the other.
pub open spec fn encode_all(es: Seq<Seq<u8>>) -> Seq<u8>
    decreases es.len(),
{
    if es.len() == 0 {
        Seq::empty()
    } else {
        encode_entry(es[0]) + encode_all(es.drop_first())
    }
}

/// The number of stream bytes the entries take: 4 length bytes plus the
/// payload, per entry.
pub open spec fn encoded_len(es: Seq<Seq<u8>>) -> int
    decreases es.len(),
{
    if es.len() == 0 {
        0
    } else {
        4 + es[0].len() + encoded_len(es.drop_first())
    }
}

/// A complete entry starts at the head of `s`.
pub open spec fn has_entry(s: Seq<u8>) -> bool {
    s.len() >= 4 && s.len() >= 4 + be32(s.take(4))
}

/// The payload of the entry at the head of `s`.
pub open spec fn head_entry(s: Seq<u8>) -> Seq<u8>
    recommends
        has_entry(s),
{
    s.subrange(4, 4 + be32(s.take(4)))
}

/// What remains of `s` past the entry at its head.
pub open spec fn tail_entries(s: Seq<u8>) -> Seq<u8>
    recommends
        has_entry(s),
{
    s.skip(4 + be32(s.take(4)))
}

/// All complete entries of a stream, in order. Trailing bytes that do not
/// form a complete entry are dropped.
pub open spec fn wl_entries(s: Seq<u8>) -> Seq<Seq<u8>>
    decreases s.len(),
{
    if has_entry(s) {
        seq![head_entry(s)] + wl_entries(tail_entries(s))
    } else {
        Seq::empty()
    }
}

/// Entries paired up as (key, value) records; a trailing unpaired entry is
/// dropped.
pub open spec fn records_of(es: Seq<Seq<u8>>) -> Seq<RecordView>
    decreases es.len(),
{
    if es.len() < 2 {
        Seq::empty()
    } else {
        seq![RecordView { key: es[0], value: es[1] }] + records_of(es.skip(2))
    }
}

/// Encodes a 32-bit value as 4 big-endian bytes.
pub fn encode_u32(val: u32) -> (buf: Vec<u8>)
    ensures
        buf@ == u32_be(val),
{
    let mut buf: Vec<u8> = Vec::new();
    buf.push(((val >> 24) & 0xff) as u8);
    buf.push(((val >> 16) & 0xff) as u8);
    buf.push(((val >> 8) & 0xff) as u8);
    buf.push((val & 0xff) as u8);
    proof {
        assert(buf@ =~= u32_be(val));
    }
    buf
}

/// Decodes 4 big-endian bytes into the 32-bit value they spell.
pub fn decode_u32(buf: Vec<u8>) -> (val: u32)
    requires
        buf@.len() == 4,
    ensures
        val == be32(buf@),
{
    ((buf[0] as u32) << 24) | ((buf[1] as u32) << 16) | ((buf[2] as u32) << 8) | (buf[3] as u32)
}

/// Decoding the 4 bytes an encode produced gives the value back.
pub proof fn lemma_be32_round_trip(v: u32)
    ensures
        be32(u32_be(v)) == v,
{
    let b0 = ((v >> 24) & 0xff) as u8;
    let b1 = ((v >> 16) & 0xff) as u8;
    let b2 = ((v >> 8) & 0xff) as u8;
    let b3 = (v & 0xff) as u8;
    assert((((b0 as u32) << 24) | ((b1 as u32) << 16) | ((b2 as u32) << 8) | (b3 as u32)) == v)
        by (bit_vector)
        requires
            b0 == ((v >> 24) & 0xff) as u8,
            b1 == ((v >> 16) & 0xff) as u8,
            b2 == ((v >> 8) & 0xff) as u8,
            b3 == (v & 0xff) as u8,
    ;
}


/// A count as a 32-bit statistics counter reports it: exact until the
/// counter tops out at the largest 32-bit value.
pub open spec fn counter_sat(n: nat) -> nat {
    if n <= 0xffffffff {
        n
    } else {
        0xffffffff
    }
}

/// Reading a WriteLog fails when no complete entry is left: either the
/// stream is exhausted, or it breaks off inside an entry.
#[derive(PartialEq, Eq, Structural, Clone, Copy, Debug)]
pub enum WriteLogError {
    NoCompleteEntry,
}

/// Writes entries to an in-memory WriteLog stream. The host program moves
/// the finished buffer to its destination.
pub struct WriteLogWriter {
    dest: Vec<u8>,
    start: usize,
    records_written: u32,
    entries: Ghost<Seq<Seq<u8>>>,
}

impl WriteLogWriter {
    /// The bytes the destination buffer held at construction.
    pub closed spec fn base(&self) -> Seq<u8> {
        self.dest@.take(self.start as int)
    }

    /// The entries written so far, in order.
    pub closed spec fn entries(&self) -> Seq<Seq<u8>> {
        self.entries@
    }

    /// The destination buffer: the base bytes followed by the encoding of
    /// every entry written.
    pub closed spec fn log(&self) -> Seq<u8> {
        self.dest@
    }

    pub closed spec fn wf(&self) -> bool {
        &&& self.start <= self.dest@.len()
        &&& self.dest@.skip(self.start as int) == encode_all(self.entries@)
        &&& self.records_written as nat == counter_sat(self.entries@.len())
        &&& forall|i: int| 0 <= i < self.entries@.len() ==> #[trigger] self.entries@[i].len() < 0x100000000
    }

    /// Returns a new WriteLog that appends to `dest`.
    pub fn new(dest: Vec<u8>) -> (w: WriteLogWriter)
        ensures
            w.wf(),
            w.base() == dest@,
            w.log() == dest@,
            w.entries() == Seq::<Seq<u8>>::empty(),
    {
        let start = dest.len();
        let w = WriteLogWriter { dest, start, records_written: 0, entries: Ghost(Seq::empty()) };
        proof {
            assert(w.dest@.take(start as int) =~= w.dest@);
            assert(w.dest@.skip(start as int) =~= Seq::<u8>::empty());
            assert(encode_all(Seq::<Seq<u8>>::empty()) =~= Seq::<u8>::empty());
        }
        w
    }

    /// Return how many (bytes, records) have been written. The record
    /// counter tops out at the largest 32-bit value.
    pub fn get_stats(&self) -> (r: (u64, u32))
        requires
            self.wf(),
        ensures
            r.0 == encoded_len(self.entries()),
            r.1 == counter_sat(self.entries().len()),
    {
        proof {
            lemma_encode_all_len(self.entries@);
        }
        ((self.dest.len() - self.start) as u64, self.records_written)
    }

    /// Appends one entry: 4 big-endian length bytes, then the payload.
    pub fn write(&mut self, buf: &Vec<u8>)
        requires
            old(self).wf(),
            buf@.len() < 0x100000000,
        ensures
            final(self).wf(),
            final(self).entries() == old(self).entries().push(buf@),
            final(self).base() == old(self).base(),
            final(self).log() == old(self).log() + encode_entry(buf@),
    {
        let ghost prev = self.dest@;
        let mut lenbuf = encode_u32(buf.len() as u32);
        proof {
            lemma_be32_round_trip(buf@.len() as u32);
        }
        self.dest.append(&mut lenbuf);
        let mut i: usize = 0;
        while i < buf.len()
            invariant
                i <= buf@.len(),
                self.dest@ == prev + u32_be(buf@.len() as u32) + buf@.take(i as int),
                self.start == old(self).start,
                self.records_written == old(self).records_written,
                self.entries == old(self).entries,
            decreases buf@.len() - i,
        {
            self.dest.push(buf[i]);
            proof {
                assert(buf@.take(i + 1) =~= buf@.take(i as int).push(buf@[i as int]));
                assert((prev + u32_be(buf@.len() as u32) + buf@.take(i as int)).push(buf@[i as int])
                    =~= prev + u32_be(buf@.len() as u32) + buf@.take(i + 1));
            }
            i = i + 1;
        }
        self.records_written = if self.records_written < 0xffffffffu32 {
            self.records_written + 1
        } else {
            self.records_written
        };
        proof {
            let entry = buf@;
            self.entries@ = self.entries@.push(entry);
            assert(buf@.take(buf@.len() as int) =~= buf@);
            lemma_encode_all_push(old(self).entries@, entry);
            assert(self.dest@.skip(self.start as int)
                =~= old(self).dest@.skip(self.start as int) + encode_entry(entry));
            assert(self.dest@.take(self.start as int) =~= old(self).dest@.take(self.start as int));
        }
    }

    /// Hands the destination buffer over: the base bytes followed by the
    /// encoding of every entry written.
    pub fn into_bytes(self) -> (r: Vec<u8>)
        ensures
            r@ == self.log(),
            self.wf() ==> r@ == self.base() + encode_all(self.entries()),
    {
        proof {
            if self.wf() {
                assert(self.dest@ =~= self.dest@.take(self.start as int) + self.dest@.skip(
                    self.start as int,
                ));
            }
        }
        self.dest
    }
}

/// Appending an entry extends the encoded stream by that entry's encoding.
pub proof fn lemma_encode_all_push(es: Seq<Seq<u8>>, e: Seq<u8>)
    ensures
        encode_all(es.push(e)) == encode_all(es) + encode_entry(e),
    decreases es.len(),
{
    if es.len() == 0 {
        assert(es.push(e)[0] == e);
        assert(es.push(e).drop_first() =~= Seq::<Seq<u8>>::empty());
        assert(encode_all(Seq::<Seq<u8>>::empty()) == Seq::<u8>::empty());
        assert(encode_all(es.push(e)) == encode_entry(e) + Seq::<u8>::empty());
        assert(encode_entry(e) + Seq::<u8>::empty() =~= encode_entry(e));
        assert(encode_all(es) + encode_entry(e) =~= encode_entry(e));
    } else {
        assert(es.push(e).drop_first() =~= es.drop_first().push(e));
        lemma_encode_all_push(es.drop_first(), e);
        assert(es.push(e)[0] == es[0]);
        vstd::seq_lib::lemma_concat_associative(
            encode_entry(es[0]),
            encode_all(es.drop_first()),
            encode_entry(e),
        );
    }
}

/// The encoded stream is exactly `encoded_len` bytes long.
pub proof fn lemma_encode_all_len(es: Seq<Seq<u8>>)
    ensures
        encode_all(es).len() == encoded_len(es),
        encoded_len(es) >= 4 * es.len(),
    decreases es.len(),
{
    if es.len() > 0 {
        lemma_encode_all_len(es.drop_first());
    }
}


/// Produces fresh in-memory WriteLog writers, one per requested output.
#[derive(Clone, Copy)]
pub struct WriteLogGenerator;

impl WriteLogGenerator {
    pub fn new() -> (g: WriteLogGenerator) {
        WriteLogGenerator
    }

    /// Returns a writer over a fresh, empty buffer.
    pub fn new_buffer_output(&self) -> (w: WriteLogWriter)
        ensures
            w.wf(),
            w.base() == Seq::<u8>::empty(),
            w.entries() == Seq::<Seq<u8>>::empty(),
    {
        WriteLogWriter::new(Vec::new())
    }
}

impl SinkGenerator for WriteLogGenerator {
    type Sink = WriteLogWriter;

    fn new_output(&self, name: &Vec<u8>) -> Self::Sink {
        self.new_buffer_output()
    }
}

/// A reader for WriteLog streams held in memory.
pub struct WriteLogReader {
    src: Vec<u8>,
    pos: usize,
    records_read: u32,
    bytes_read: usize,
}

impl WriteLogReader {
    /// The whole stream being read.
    pub closed spec fn source(&self) -> Seq<u8> {
        self.src@
    }

    /// The bytes not yet consumed.
    pub closed spec fn remaining(&self) -> Seq<u8> {
        self.src@.skip(self.pos as int)
    }

    /// How many entries were handed out so far.
    pub closed spec fn records(&self) -> nat {
        self.records_read as nat
    }

    /// How many stream bytes the handed-out entries took.
    pub closed spec fn bytes(&self) -> nat {
        self.bytes_read as nat
    }

    pub closed spec fn wf(&self) -> bool {
        &&& self.pos <= self.src@.len()
        &&& self.bytes_read <= self.pos
    }

    /// Returns a reader over the given stream.
    pub fn new(src: Vec<u8>) -> (r: WriteLogReader)
        ensures
            r.wf(),
            r.source() == src@,
            r.remaining() == src@,
            r.records() == 0,
            r.bytes() == 0,
    {
        let r = WriteLogReader { src, pos: 0, records_read: 0, bytes_read: 0 };
        proof {
            assert(r.src@.skip(0) =~= r.src@);
        }
        r
    }

    /// Return how many (records, bytes) have been read.
    pub fn get_stats(&self) -> (r: (u32, usize))
        ensures
            r.0 == self.records(),
            r.1 == self.bytes(),
    {
        (self.records_read, self.bytes_read)
    }

    /// Copies the next `len` bytes. Fails, consuming the rest of the
    /// stream, when fewer are left.
    fn read_bytes(&mut self, len: usize) -> (r: Result<Vec<u8>, WriteLogError>)
        requires
            old(self).wf(),
        ensures
            final(self).wf(),
            final(self).source() == old(self).source(),
            final(self).records() == old(self).records(),
            final(self).bytes() == old(self).bytes(),
            match r {
                Ok(v) => {
                    &&& old(self).remaining().len() >= len
                    &&& v@ == old(self).remaining().take(len as int)
                    &&& final(self).remaining() == old(self).remaining().skip(len as int)
                },
                Err(_) => {
                    &&& old(self).remaining().len() < len
                    &&& final(self).remaining() == Seq::<u8>::empty()
                },
            },
    {
        if self.src.len() - self.pos < len {
            self.pos = self.src.len();
            proof {
                assert(self.src@.skip(self.src@.len() as int) =~= Seq::<u8>::empty());
            }
            return Err(WriteLogError::NoCompleteEntry);
        }
        let mut v: Vec<u8> = Vec::new();
        let start = self.pos;
        let mut i: usize = 0;
        while i < len
            invariant
                i <= len,
                start + len <= self.src@.len(),
                self.src@.len() <= usize::MAX,
                self.pos == start,
                v@ == self.src@.subrange(start as int, start + i),
            decreases len - i,
        {
            v.push(self.src[start + i]);
            proof {
                assert(self.src@.subrange(start as int, start + i + 1)
                    =~= self.src@.subrange(start as int, start + i).push(self.src@[start + i]));
            }
            i = i + 1;
        }
        self.pos = start + len;
        proof {
            assert(self.src@.subrange(start as int, start + len)
                =~= self.src@.skip(start as int).take(len as int));
            assert(self.src@.skip(start + len) =~= self.src@.skip(start as int).skip(len as int));
        }
        Ok(v)
    }

    /// Reads the next complete entry into a fresh vector. Fails, consuming
    /// the rest of the stream, when none is left.
    pub fn read_vec(&mut self) -> (r: Result<Vec<u8>, WriteLogError>)
        requires
            old(self).wf(),
        ensures
            final(self).wf(),
            final(self).source() == old(self).source(),
            match r {
                Ok(v) => {
                    &&& has_entry(old(self).remaining())
                    &&& v@ == head_entry(old(self).remaining())
                    &&& final(self).remaining() == tail_entries(old(self).remaining())
                    &&& final(self).records() == counter_sat(old(self).records() + 1)
                    &&& final(self).bytes() == old(self).bytes() + 4 + v@.len()
                },
                Err(_) => {
                    &&& !has_entry(old(self).remaining())
                    &&& final(self).remaining() == Seq::<u8>::empty()
                    &&& final(self).records() == old(self).records()
                    &&& final(self).bytes() == old(self).bytes()
                },
            },
    {
        let ghost rem = self.remaining();
        let lengthbuf = match self.read_bytes(4) {
            Err(e) => {
                return Err(e);
            },
            Ok(v) => v,
        };
        proof {
            assert(lengthbuf@ == rem.take(4));
        }
        let length = decode_u32(lengthbuf) as usize;
        let buffer = match self.read_bytes(length) {
            Err(e) => {
                return Err(e);
            },
            Ok(v) => v,
        };
        proof {
            assert(rem.skip(4).take(length as int) =~= rem.subrange(4, 4 + length));
            assert(rem.skip(4).skip(length as int) =~= rem.skip(4 + length));
        }
        self.records_read = if self.records_read < 0xffffffffu32 {
            self.records_read + 1
        } else {
            self.records_read
        };
        self.bytes_read = self.bytes_read + 4 + length;
        Ok(buffer)
    }

    /// Yields the next complete entry, or nothing once the stream is
    /// exhausted or breaks off inside an entry.
    pub fn next(&mut self) -> (r: Option<Vec<u8>>)
        requires
            old(self).wf(),
        ensures
            final(self).wf(),
            final(self).source() == old(self).source(),
            match r {
                Some(v) => {
                    &&& has_entry(old(self).remaining())
                    &&& v@ == head_entry(old(self).remaining())
                    &&& final(self).remaining() == tail_entries(old(self).remaining())
                },
                None => {
                    &&& !has_entry(old(self).remaining())
                    &&& final(self).remaining() == Seq::<u8>::empty()
                },
            },
    {
        match self.read_vec() {
            Ok(v) => Some(v),
            Err(_) => None,
        }
    }
}

/// The entries parsed back from an encoded stream are exactly the entries
/// that were encoded, and the stream is `encoded_len` bytes long.
#[verifier::spinoff_prover]
#[verifier::rlimit(80)]
pub proof fn lemma_writelog_round_trip(es: Seq<Seq<u8>>)
    requires
        forall|i: int| 0 <= i < es.len() ==> #[trigger] es[i].len() < 0x100000000,
    ensures
        wl_entries(encode_all(es)) == es,
        encode_all(es).len() == encoded_len(es),
    decreases es.len(),
{
    lemma_encode_all_len(es);
    let s = encode_all(es);
    if es.len() == 0 {
        assert(!has_entry(s));
        assert(wl_entries(s) =~= es);
    } else {
        let e = es[0];
        let rest = encode_all(es.drop_first());
        lemma_be32_round_trip(e.len() as u32);
        assert(s.take(4) =~= u32_be(e.len() as u32));
        assert(be32(s.take(4)) == e.len());
        assert(has_entry(s));
        assert(head_entry(s) =~= e);
        assert(tail_entries(s) =~= rest);
        lemma_writelog_round_trip(es.drop_first());
        assert(wl_entries(s) =~= seq![e] + wl_entries(rest));
        assert(seq![e] + es.drop_first() =~= es);
    }
}

} // verus!
