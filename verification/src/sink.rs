//! Packing a frame into a ring item for persistence.
//!
//! A frame is persisted as one self-describing container record: a ring
//! item whose type tag marks it as a waveform frame, whose body header
//! carries the frame's start time with source id and barrier type 0, and
//! whose body holds the data size (4 bytes), the fine-time offset
//! (2 bytes), and the raw samples (2 bytes each), all little-endian.  The
//! body bytes are laid down by verified code; the ring item container
//! itself belongs to the `rust_ringitem_format` crate, and this module
//! states only what that crate's source shows of it.

use crate::sequencer::Frame;
use crate::sequencer::TRACE_FRAME_ITEM_TYPE;
use vstd::prelude::*;

verus! {

#[verifier::external_type_specification]
#[verifier::external_body]
pub struct ExRingItem(rust_ringitem_format::RingItem);

/// The bytes a ring item's payload holds, body header included.
pub uninterp spec fn ring_payload(item: rust_ringitem_format::RingItem) -> Seq<u8>;

/// The type tag a ring item was created with.
pub uninterp spec fn ring_type_id(item: rust_ringitem_format::RingItem) -> u32;

/// The timestamp a ring item's body header carries.
pub uninterp spec fn ring_stamp(item: rust_ringitem_format::RingItem) -> u64;

/// The source id a ring item's body header carries.
pub uninterp spec fn ring_source(item: rust_ringitem_format::RingItem) -> u32;

/// The barrier type a ring item's body header carries.
pub uninterp spec fn ring_barrier(item: rust_ringitem_format::RingItem) -> u32;

/// The little-endian bytes of `v`, `n` bytes wide, least significant first.
pub open spec fn le_bytes(v: int, n: int) -> Seq<u8>
    decreases n,
{
    if n <= 0 {
        Seq::empty()
    } else {
        seq![(v % 256) as u8] + le_bytes(v / 256, n - 1)
    }
}

/// The little-endian bytes of a sample sequence, 2 bytes per sample, in
/// sample order.
pub open spec fn sample_bytes(s: Seq<u16>) -> Seq<u8>
    decreases s.len(),
{
    if s.len() == 0 {
        Seq::empty()
    } else {
        le_bytes(s[0] as int, 2) + sample_bytes(s.skip(1))
    }
}

/// The body of a frame's container record: data size, then fine-time
/// offset, then the raw samples.
pub open spec fn frame_body_bytes(f: Frame) -> Seq<u8> {
    le_bytes(f.data_size as int, 4) + le_bytes(f.data_offset as int, 2) + sample_bytes(
        f.samples@,
    )
}

proof fn lemma_sample_bytes_len(s: Seq<u16>)
    ensures
        sample_bytes(s).len() == 2 * s.len(),
    decreases s.len(),
{
    reveal_with_fuel(le_bytes, 3);
    if s.len() > 0 {
        lemma_sample_bytes_len(s.skip(1));
    }
}

proof fn lemma_sample_bytes_push(s: Seq<u16>, x: u16)
    ensures
        sample_bytes(s.push(x)) == sample_bytes(s) + le_bytes(x as int, 2),
    decreases s.len(),
{
    if s.len() == 0 {
        assert(s.push(x)[0] == x);
        assert(s.push(x).skip(1) =~= Seq::<u16>::empty());
        assert(sample_bytes(s.push(x)) == le_bytes(x as int, 2) + sample_bytes(
            s.push(x).skip(1),
        ));
        assert(le_bytes(x as int, 2) + Seq::<u8>::empty() =~= le_bytes(x as int, 2));
        assert(Seq::<u8>::empty() + le_bytes(x as int, 2) =~= le_bytes(x as int, 2));
    } else {
        lemma_sample_bytes_push(s.skip(1), x);
        assert(s.push(x)[0] == s[0]);
        assert(s.push(x).skip(1) =~= s.skip(1).push(x));
        assert(sample_bytes(s.push(x)) == le_bytes(s[0] as int, 2) + sample_bytes(
            s.skip(1).push(x),
        ));
        assert(le_bytes(s[0] as int, 2) + (sample_bytes(s.skip(1)) + le_bytes(x as int, 2))
            =~= (le_bytes(s[0] as int, 2) + sample_bytes(s.skip(1))) + le_bytes(x as int, 2));
    }
}

/// Appends the 2-byte little-endian encoding of `v`.
fn push_le_u16(out: &mut Vec<u8>, v: u16)
    ensures
        final(out)@ == old(out)@ + le_bytes(v as int, 2),
{
    proof {
        reveal_with_fuel(le_bytes, 3);
    }
    out.push((v % 256) as u8);
    let hi = v / 256;
    out.push((hi % 256) as u8);
    proof {
        assert(out@ =~= old(out)@ + le_bytes(v as int, 2));
    }
}

/// Appends the 4-byte little-endian encoding of `v`.
fn push_le_u32(out: &mut Vec<u8>, v: u32)
    ensures
        final(out)@ == old(out)@ + le_bytes(v as int, 4),
{
    proof {
        reveal_with_fuel(le_bytes, 5);
    }
    out.push((v % 256) as u8);
    let v1 = v / 256;
    out.push((v1 % 256) as u8);
    let v2 = v1 / 256;
    out.push((v2 % 256) as u8);
    let v3 = v2 / 256;
    out.push((v3 % 256) as u8);
    proof {
        assert(out@ =~= old(out)@ + le_bytes(v as int, 4));
    }
}

/// Relies on RingItem::new_with_body_header: a fresh ring item of the given
/// type whose payload is the 16-byte body header built from the timestamp,
/// source id and barrier type, each read back by get_bodyheader.
#[verifier::external_body]
fn ring_new_with_body_header(t: u32, stamp: u64, source: u32, barrier: u32) -> (r:
    rust_ringitem_format::RingItem)
    ensures
        ring_type_id(r) == t,
        ring_stamp(r) == stamp,
        ring_source(r) == source,
        ring_barrier(r) == barrier,
        ring_payload(r).len() == 16,
{
    rust_ringitem_format::RingItem::new_with_body_header(t, stamp, source, barrier)
}

/// Relies on RingItem::add_byte_vec: appends the given bytes to the
/// payload, leaving the bytes already there, the type tag and the body
/// header as they were.  The item's size counter is 12 bytes more than the
/// payload and must stay within u32, or the crate's byte-wise add would
/// overflow it; the body header is only defined once the 16 header bytes
/// are in place.
#[verifier::external_body]
fn ring_add_bytes(item: &mut rust_ringitem_format::RingItem, v: &Vec<u8>)
    requires
        ring_payload(*old(item)).len() >= 16,
        12 + ring_payload(*old(item)).len() + v@.len() <= u32::MAX as int,
    ensures
        ring_type_id(*final(item)) == ring_type_id(*old(item)),
        ring_stamp(*final(item)) == ring_stamp(*old(item)),
        ring_source(*final(item)) == ring_source(*old(item)),
        ring_barrier(*final(item)) == ring_barrier(*old(item)),
        ring_payload(*final(item)) == ring_payload(*old(item)) + v@,
{
    item.add_byte_vec(v);
}

/// Builds the container record for one frame: a waveform-frame type tag, a
/// body header carrying the frame's start (source id and barrier type 0),
/// and a body of the data size (4 bytes), the fine-time offset (2 bytes),
/// and the raw samples (2 bytes each), all little-endian.  The whole
/// record, 12-byte item header included, must fit the ring item's u32 size
/// counter.
pub fn frame_to_ring_item(frame: &Frame) -> (r: rust_ringitem_format::RingItem)
    requires
        34 + 2 * frame.samples@.len() <= u32::MAX as int,
    ensures
        ring_type_id(r) == TRACE_FRAME_ITEM_TYPE,
        ring_stamp(r) == frame.frame_start,
        ring_source(r) == 0,
        ring_barrier(r) == 0,
        ring_payload(r).len() == 22 + 2 * frame.samples@.len(),
        ring_payload(r).skip(16) == frame_body_bytes(*frame),
{
    let mut body: Vec<u8> = Vec::new();
    push_le_u32(&mut body, frame.data_size);
    push_le_u16(&mut body, frame.data_offset);
    proof {
        assert(frame.samples@.take(0) =~= Seq::<u16>::empty());
        assert(body@ =~= le_bytes(frame.data_size as int, 4) + le_bytes(
            frame.data_offset as int,
            2,
        ) + sample_bytes(frame.samples@.take(0)));
    }
    let mut i: usize = 0;
    while i < frame.samples.len()
        invariant
            i <= frame.samples@.len(),
            body@ == le_bytes(frame.data_size as int, 4) + le_bytes(
                frame.data_offset as int,
                2,
            ) + sample_bytes(frame.samples@.take(i as int)),
        decreases frame.samples@.len() - i,
    {
        push_le_u16(&mut body, frame.samples[i]);
        proof {
            lemma_sample_bytes_push(frame.samples@.take(i as int), frame.samples@[i as int]);
            assert(frame.samples@.take(i + 1 as int) =~= frame.samples@.take(i as int).push(
                frame.samples@[i as int],
            ));
            assert(body@ =~= le_bytes(frame.data_size as int, 4) + le_bytes(
                frame.data_offset as int,
                2,
            ) + sample_bytes(frame.samples@.take(i + 1 as int)));
        }
        i += 1;
    }
    proof {
        assert(frame.samples@.take(frame.samples@.len() as int) =~= frame.samples@);
        lemma_sample_bytes_len(frame.samples@);
        reveal_with_fuel(le_bytes, 5);
        assert(body@.len() == 6 + 2 * frame.samples@.len());
    }
    let mut item = ring_new_with_body_header(TRACE_FRAME_ITEM_TYPE, frame.frame_start, 0, 0);
    ring_add_bytes(&mut item, &body);
    proof {
        assert(ring_payload(item).skip(16) =~= body@);
    }
    item
}

} // verus!
