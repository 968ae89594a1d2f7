//! Decoding traces from their flat binary record layout.
//!
//! A record is, in order and without padding: an 8-byte little-endian
//! timestamp, a 4-byte little-endian sample count `n`, then `n` 2-byte
//! little-endian samples.  A record that is not wholly present is treated
//! as end of stream.

use crate::sequencer::Trace;
use vstd::prelude::*;

verus! {

/// The value of the `n` bytes at `pos`, read little-endian: the byte at
/// `pos` is least significant.
pub open spec fn le_at(b: Seq<u8>, pos: int, n: int) -> int
    decreases n,
{
    if n <= 0 {
        0
    } else {
        b[pos] + 256 * le_at(b, pos + 1, n - 1)
    }
}

/// Whether one whole trace record lies at `pos`: a 12-byte header and then
/// as many 2-byte samples as the header's count field declares.
pub open spec fn record_complete(b: Seq<u8>, pos: int) -> bool {
    &&& pos + 12 <= b.len()
    &&& pos + 12 + 2 * le_at(b, pos + 8, 4) <= b.len()
}

/// The timestamp field of the record at `pos`.
pub open spec fn record_timestamp(b: Seq<u8>, pos: int) -> int {
    le_at(b, pos, 8)
}

/// The sample-count field of the record at `pos`.
pub open spec fn record_count(b: Seq<u8>, pos: int) -> int {
    le_at(b, pos + 8, 4)
}

/// Sample `i` of the record at `pos`.
pub open spec fn record_sample(b: Seq<u8>, pos: int, i: int) -> int {
    le_at(b, pos + 12 + 2 * i, 2)
}

/// The position just past the record at `pos`.
pub open spec fn record_end(b: Seq<u8>, pos: int) -> int {
    pos + 12 + 2 * record_count(b, pos)
}

/// Reads the 2-byte little-endian value at `pos`.
fn le_u16(bytes: &Vec<u8>, pos: usize) -> (v: u16)
    requires
        pos + 2 <= bytes@.len(),
    ensures
        v as int == le_at(bytes@, pos as int, 2),
{
    proof {
        reveal_with_fuel(le_at, 3);
        assert(bytes.len() == bytes@.len());
    }
    let b0 = bytes[pos] as u16;
    let b1 = bytes[pos + 1] as u16;
    b0 + b1 * 256
}

/// Reads the 4-byte little-endian value at `pos`.
fn le_u32(bytes: &Vec<u8>, pos: usize) -> (v: u32)
    requires
        pos + 4 <= bytes@.len(),
    ensures
        v as int == le_at(bytes@, pos as int, 4),
{
    proof {
        reveal_with_fuel(le_at, 5);
        assert(bytes.len() == bytes@.len());
    }
    let b0 = bytes[pos] as u32;
    let b1 = bytes[pos + 1] as u32;
    let b2 = bytes[pos + 2] as u32;
    let b3 = bytes[pos + 3] as u32;
    b0 + 256 * (b1 + 256 * (b2 + 256 * b3))
}

/// Reads the 8-byte little-endian value at `pos`.
fn le_u64(bytes: &Vec<u8>, pos: usize) -> (v: u64)
    requires
        pos + 8 <= bytes@.len(),
    ensures
        v as int == le_at(bytes@, pos as int, 8),
{
    proof {
        reveal_with_fuel(le_at, 9);
        assert(bytes.len() == bytes@.len());
    }
    let b0 = bytes[pos] as u64;
    let b1 = bytes[pos + 1] as u64;
    let b2 = bytes[pos + 2] as u64;
    let b3 = bytes[pos + 3] as u64;
    let b4 = bytes[pos + 4] as u64;
    let b5 = bytes[pos + 5] as u64;
    let b6 = bytes[pos + 6] as u64;
    let b7 = bytes[pos + 7] as u64;
    b0 + 256 * (b1 + 256 * (b2 + 256 * (b3 + 256 * (b4 + 256 * (b5 + 256 * (b6 + 256
        * b7))))))
}

/// Decodes the trace record at `pos`, returning the trace and the position
/// of the next record, or `None` when no whole record lies there — a
/// truncated record is treated the same as a clean end of stream.
pub fn read_next_trace(bytes: &Vec<u8>, pos: usize) -> (r: Option<(Trace, usize)>)
    ensures
        r is Some <==> record_complete(bytes@, pos as int),
        r matches Some((t, next)) ==> {
            &&& t.timestamp as int == record_timestamp(bytes@, pos as int)
            &&& t.samples@.len() == record_count(bytes@, pos as int)
            &&& forall|i: int| 0 <= i < t.samples@.len()
                ==> #[trigger] t.samples@[i] as int == record_sample(bytes@, pos as int, i)
            &&& next as int == record_end(bytes@, pos as int)
        },
{
    if pos > bytes.len() || bytes.len() - pos < 12 {
        return None;
    }
    let timestamp = le_u64(bytes, pos);
    let count = le_u32(bytes, pos + 8);
    let body = bytes.len() - (pos + 12);
    if count as u64 > (body / 2) as u64 {
        proof {
            assert(2 * (count as int) > body as int);
        }
        return None;
    }
    let count: usize = count as usize;
    let mut samples: Vec<u16> = Vec::new();
    let mut i: usize = 0;
    while i < count
        invariant
            i <= count,
            bytes@.len() <= usize::MAX,
            pos + 12 + 2 * count <= bytes@.len(),
            count == record_count(bytes@, pos as int),
            samples@.len() == i,
            forall|j: int| 0 <= j < i
                ==> #[trigger] samples@[j] as int == record_sample(bytes@, pos as int, j),
        decreases count - i,
    {
        let s = le_u16(bytes, pos + 12 + 2 * i);
        samples.push(s);
        i += 1;
    }
    Some((Trace { timestamp, samples }, pos + 12 + 2 * count))
}

} // verus!
