use frame_sequencer::sequencer::{Sequencer, Trace, TRACE_FRAME_ITEM_TYPE};
use frame_sequencer::sink::frame_to_ring_item;

#[test]
fn ring_item_carries_frame() {
    let mut seq = Sequencer::new();
    let frames = seq
        .feed(&Trace { timestamp: 100, samples: vec![1, 2, 3] })
        .expect("trace should be accepted");
    assert_eq!(frames.len(), 1);
    let item = frame_to_ring_item(&frames[0]);

    assert_eq!(item.type_id(), TRACE_FRAME_ITEM_TYPE);
    let header = item.get_bodyheader().expect("item should have a body header");
    assert_eq!(header.timestamp, 0);
    assert_eq!(header.source_id, 0);
    assert_eq!(header.barrier_type, 0);

    // Body: 16 header bytes, then data_size (4), data_offset (2), samples,
    // all little-endian.
    let payload = item.payload();
    assert_eq!(payload.len(), 16 + 4 + 2 + 2 * 3);
    assert_eq!(u32::from_le_bytes(payload[16..20].try_into().unwrap()), 3);
    assert_eq!(u16::from_le_bytes(payload[20..22].try_into().unwrap()), 100);
    for (i, expected) in [1u16, 2, 3].iter().enumerate() {
        let s = u16::from_le_bytes(payload[22 + 2 * i..24 + 2 * i].try_into().unwrap());
        assert_eq!(s, *expected);
    }
    // Exact body bytes for these small values.
    assert_eq!(payload[16..], [3, 0, 0, 0, 100, 0, 1, 0, 2, 0, 3, 0]);
    // Ring item size: 12-byte item header plus the payload.
    assert_eq!(item.size() as usize, 12 + payload.len());
}

#[test]
fn ring_item_for_empty_frame() {
    let mut seq = Sequencer::new();
    let frames = seq
        .feed(&Trace { timestamp: 512, samples: vec![] })
        .expect("trace should be accepted");
    assert_eq!(frames.len(), 2);
    let item = frame_to_ring_item(&frames[1]);
    assert_eq!(item.type_id(), TRACE_FRAME_ITEM_TYPE);
    let header = item.get_bodyheader().expect("item should have a body header");
    assert_eq!(header.timestamp, 512);
    assert_eq!(header.source_id, 0);
    assert_eq!(header.barrier_type, 0);
    // A complete record is still written: the body is exactly the six zero
    // bytes of data_size and data_offset, followed by no samples.
    let payload = item.payload();
    assert_eq!(payload.len(), 22);
    assert_eq!(payload[16..], [0, 0, 0, 0, 0, 0]);
}
