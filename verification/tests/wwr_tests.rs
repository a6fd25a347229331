use myodine::wwr::{Chunk, Packet, WwrState};
use myodine::session::{handle_packet_in, next_packet_out};

fn drain_all(state: &mut WwrState) -> Vec<Chunk> {
    let mut out = Vec::new();
    while let Some(c) = state.next_send_chunk() {
        out.push(c);
    }
    out
}

#[test]
fn window_transfer_reconstructs_stream() {
    // Push bytes through the sender in pieces, deliver the chunks to a
    // receiver out of order and with duplicates, and read them back in
    // order.
    let mut sender = WwrState::new(8, 3, 0);
    let data: Vec<u8> = (1..=10).collect();
    assert!(sender.send_buffer_space() > 0);
    sender.push_send_buffer(data[..4].to_vec());
    assert!(sender.send_buffer_space() > 0);
    sender.push_send_buffer(data[4..].to_vec());
    let chunks = drain_all(&mut sender);
    assert_eq!(chunks.len(), 4);
    assert_eq!(chunks[0].data, vec![1, 2, 3]);
    assert_eq!(chunks[3].data, vec![10]);

    let mut receiver = WwrState::new(8, 3, 0);
    let mut got: Vec<u8> = Vec::new();
    // arrival order: 2, 0, 2 again (duplicate), 3, 1
    for idx in [2usize, 0, 2, 3, 1] {
        let c = Chunk { seq: chunks[idx].seq, data: chunks[idx].data.clone() };
        for d in receiver.handle_chunk(c) {
            got.extend_from_slice(&d.data);
        }
    }
    assert_eq!(got, data);
}

#[test]
fn window_bound_holds() {
    let mut s = WwrState::new(2, 1, 5);
    assert_eq!(s.send_buffer_space(), 2);
    s.push_send_buffer(vec![1, 2, 3]);
    assert!(s.next_send_chunk().is_some());
    assert_eq!(s.send_buffer_space(), 1);
    assert!(s.next_send_chunk().is_some());
    assert_eq!(s.send_buffer_space(), 0);
    // window full: the third byte stays queued
    assert!(s.next_send_chunk().is_none());
    // a cumulative ack for one chunk frees one slot
    s.handle_ack(6);
    assert_eq!(s.send_buffer_space(), 1);
    assert!(s.next_send_chunk().is_some());
    // an old ack never regresses the window
    s.handle_ack(3);
    assert_eq!(s.send_buffer_space(), 0);
}

#[test]
fn end_of_stream_is_final() {
    let mut r = WwrState::new(4, 4, 0);
    // buffer data beyond the end-of-stream marker
    assert!(r.handle_chunk(Chunk { seq: 2, data: vec![9, 9] }).is_empty());
    let delivered = r.handle_chunk(Chunk { seq: 0, data: vec![] });
    assert_eq!(delivered.len(), 1);
    assert!(delivered[0].data.is_empty());
    assert!(r.finished);
    // once finished, everything is discarded, buffered or new
    assert!(r.handle_chunk(Chunk { seq: 1, data: vec![7] }).is_empty());
    assert!(r.handle_chunk(Chunk { seq: 3, data: vec![8] }).is_empty());
    assert!(r.finished);
}

#[test]
fn duplicates_are_discarded() {
    let mut r = WwrState::new(4, 4, 0);
    let first = r.handle_chunk(Chunk { seq: 0, data: vec![1] });
    assert_eq!(first.len(), 1);
    // the same sequence number again is below recv_next now
    assert!(r.handle_chunk(Chunk { seq: 0, data: vec![1] }).is_empty());
}

#[test]
fn packet_round() {
    let mut server = WwrState::new(4, 4, 0);
    let mut client = WwrState::new(4, 4, 0);
    client.push_send_buffer(vec![10, 20, 30]);
    let p = next_packet_out(&mut client);
    assert_eq!(p.ack, 0);
    let delivery = handle_packet_in(p, &mut server, true);
    assert_eq!(delivery.data, vec![10, 20, 30]);
    assert!(!delivery.finished);
    // the server's next packet acknowledges the received chunk
    let back = next_packet_out(&mut server);
    assert_eq!(back.ack, 1);
    assert!(back.chunk.is_none());
    handle_packet_in(back, &mut client, true);
    assert_eq!(client.send_base, 1);
}

#[test]
fn packet_with_end_of_stream() {
    let mut server = WwrState::new(4, 4, 0);
    let p = Packet { ack: 0, chunk: Some(Chunk { seq: 0, data: vec![] }) };
    let delivery = handle_packet_in(p, &mut server, true);
    assert!(delivery.data.is_empty());
    assert!(delivery.finished);
    assert!(server.finished);
}

#[test]
fn chunk_held_until_bridge_can_send() {
    let mut server = WwrState::new(4, 4, 0);
    let p = Packet { ack: 0, chunk: Some(Chunk { seq: 0, data: vec![5] }) };
    // the TCP side cannot accept bytes: the chunk is dropped, which is safe
    // because the peer retransmits
    let delivery = handle_packet_in(p, &mut server, false);
    assert!(delivery.data.is_empty());
    let again = Packet { ack: 0, chunk: Some(Chunk { seq: 0, data: vec![5] }) };
    let delivery = handle_packet_in(again, &mut server, true);
    assert_eq!(delivery.data, vec![5]);
}
