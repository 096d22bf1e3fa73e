//! The binary point stream: records of three little-endian 32-bit floats
//! (x, y, z), with no header and no framing. A record carries each float as its
//! IEEE-754 bit pattern.

use vstd::prelude::*;

verus! {

/// Bytes per record: three 4-byte values.
pub const RECORD_LEN: usize = 12;

/// One record of the stream: the bit patterns of the three coordinates.
#[derive(Clone, Copy, Debug, PartialEq, Eq, Structural, Hash)]
pub struct PointRecord {
    pub x: u32,
    pub y: u32,
    pub z: u32,
}

#[derive(Clone, Copy, Debug, PartialEq, Eq, Structural)]
pub enum DataError {
    /// The stream ends inside a record.
    Truncated,
}

/// Little-endian bytes of a 32-bit value.
pub open spec fn le_bytes(v: u32) -> Seq<u8> {
    seq![(v % 256) as u8, ((v / 256) % 256) as u8, ((v / 65536) % 256) as u8, (v / 16777216) as u8]
}

/// The value of four little-endian bytes.
pub open spec fn from_le(b: Seq<u8>) -> u32 {
    (b[0] + 256 * b[1] + 65536 * b[2] + 16777216 * b[3]) as u32
}

pub open spec fn record_bytes(r: PointRecord) -> Seq<u8> {
    le_bytes(r.x) + le_bytes(r.y) + le_bytes(r.z)
}

pub open spec fn record_of(b: Seq<u8>) -> PointRecord {
    PointRecord {
        x: from_le(b.subrange(0, 4)),
        y: from_le(b.subrange(4, 8)),
        z: from_le(b.subrange(8, 12)),
    }
}

/// The stream that holds `s`, record after record.
pub open spec fn encode(s: Seq<PointRecord>) -> Seq<u8>
    decreases s.len(),
{
    if s.len() == 0 {
        Seq::empty()
    } else {
        encode(s.drop_last()) + record_bytes(s.last())
    }
}

/// The records of a stream whose length is a multiple of the record length.
pub open spec fn decode(b: Seq<u8>) -> Seq<PointRecord>
    decreases b.len(),
{
    if b.len() < 12 {
        Seq::empty()
    } else {
        decode(b.subrange(0, b.len() - 12)).push(record_of(b.subrange(b.len() - 12, b.len() as int)))
    }
}

proof fn lemma_le_round_trip(v: u32)
    ensures
        from_le(le_bytes(v)) == v,
{
    let b = le_bytes(v);
    assert(b[0] + 256 * b[1] + 65536 * b[2] + 16777216 * b[3] == v) by (nonlinear_arith)
        requires
            b[0] == v % 256,
            b[1] == (v / 256) % 256,
            b[2] == (v / 65536) % 256,
            b[3] == v / 16777216,
            0 <= v < 0x1_0000_0000,
    ;
}

proof fn lemma_record_round_trip(r: PointRecord)
    ensures
        record_of(record_bytes(r)) == r,
        record_bytes(r).len() == 12,
{
    let b = record_bytes(r);
    lemma_le_round_trip(r.x);
    lemma_le_round_trip(r.y);
    lemma_le_round_trip(r.z);
    assert(b.subrange(0, 4) =~= le_bytes(r.x));
    assert(b.subrange(4, 8) =~= le_bytes(r.y));
    assert(b.subrange(8, 12) =~= le_bytes(r.z));
}

proof fn lemma_encode_len(s: Seq<PointRecord>)
    ensures
        encode(s).len() == 12 * s.len(),
    decreases s.len(),
{
    if s.len() > 0 {
        lemma_encode_len(s.drop_last());
    }
}

/// Decoding the encoding of any sequence of records gives the sequence back.
pub proof fn lemma_round_trip(s: Seq<PointRecord>)
    ensures
        decode(encode(s)) == s,
        encode(s).len() % 12 == 0,
    decreases s.len(),
{
    lemma_encode_len(s);
    if s.len() == 0 {
        assert(decode(encode(s)) =~= s);
    } else {
        let e = encode(s);
        let prev = encode(s.drop_last());
        lemma_encode_len(s.drop_last());
        lemma_round_trip(s.drop_last());
        lemma_record_round_trip(s.last());
        assert(e.subrange(0, e.len() - 12) =~= prev);
        assert(e.subrange(e.len() - 12, e.len() as int) =~= record_bytes(s.last()));
        assert(decode(e) =~= s);
    }
}

/// Writes records to an in-memory stream.
pub struct PointWriter(pub Vec<u8>);

impl PointWriter {
    pub fn new() -> (w: PointWriter)
        ensures
            w.0@ == Seq::<u8>::empty(),
    {
        PointWriter(Vec::new())
    }

    /// Appends one record.
    pub fn write(&mut self, point: &PointRecord)
        ensures
            final(self).0@ == old(self).0@ + record_bytes(*point),
    {
        let ghost start = self.0@;
        push_le(&mut self.0, point.x);
        push_le(&mut self.0, point.y);
        push_le(&mut self.0, point.z);
        assert(self.0@ =~= start + record_bytes(*point));
    }

    /// The bytes written so far.
    pub fn into_bytes(self) -> (r: Vec<u8>)
        ensures
            r@ == self.0@,
    {
        self.0
    }
}

fn push_le(out: &mut Vec<u8>, v: u32)
    ensures
        final(out)@ == old(out)@ + le_bytes(v),
{
    out.push((v % 256) as u8);
    out.push(((v / 256) % 256) as u8);
    out.push(((v / 65536) % 256) as u8);
    out.push((v / 16777216) as u8);
    assert(final(out)@ =~= old(out)@ + le_bytes(v));
}

fn read_le(b: &[u8], at: usize) -> (r: u32)
    requires
        at + 4 <= b@.len(),
    ensures
        r == from_le(b@.subrange(at as int, at + 4)),
{
    let ghost s = b@.subrange(at as int, at + 4);
    assert(s[0] == b@[at as int] && s[1] == b@[at + 1] && s[2] == b@[at + 2] && s[3] == b@[at + 3]);
    b[at] as u32 + 256 * (b[at + 1] as u32) + 65536 * (b[at + 2] as u32) + 16777216 * (b[at + 3] as u32)
}

/// Reads the records of an in-memory stream.
pub struct PointReader<'a>(pub &'a [u8]);

impl<'a> PointReader<'a> {
    pub fn new(bytes: &'a [u8]) -> (r: PointReader<'a>)
        ensures
            r.0@ == bytes@,
    {
        PointReader(bytes)
    }

    /// All records of the stream, in order; fails where the stream ends
    /// inside a record.
    pub fn read(&self) -> (r: Result<Vec<PointRecord>, DataError>)
        ensures
            r is Ok <==> self.0@.len() % 12 == 0,
            r is Ok ==> r->Ok_0@ == decode(self.0@),
            r is Err ==> r == Err::<Vec<PointRecord>, DataError>(DataError::Truncated),
    {
        let b = self.0;
        if b.len() % RECORD_LEN != 0 {
            return Err(DataError::Truncated);
        }
        let mut points: Vec<PointRecord> = Vec::new();
        let mut at: usize = 0;
        proof {
            assert(decode(b@.subrange(0, 0)) =~= Seq::<PointRecord>::empty());
        }
        while at < b.len()
            invariant
                at <= b@.len(),
                at % 12 == 0,
                b@.len() % 12 == 0,
                points@ == decode(b@.subrange(0, at as int)),
            decreases b@.len() - at,
        {
            let x = read_le(b, at);
            let y = read_le(b, at + 4);
            let z = read_le(b, at + 8);
            let rec = PointRecord { x, y, z };
            proof {
                let next = b@.subrange(0, at + 12);
                assert(next.subrange(0, next.len() - 12) =~= b@.subrange(0, at as int));
                let tail = next.subrange(next.len() - 12, next.len() as int);
                assert(tail.subrange(0, 4) =~= b@.subrange(at as int, at + 4));
                assert(tail.subrange(4, 8) =~= b@.subrange(at + 4, at + 8));
                assert(tail.subrange(8, 12) =~= b@.subrange(at + 8, at + 12));
                assert(record_of(tail) == rec);
            }
            points.push(rec);
            at = at + RECORD_LEN;
        }
        assert(b@.subrange(0, at as int) =~= b@);
        Ok(points)
    }
}

} // verus!
