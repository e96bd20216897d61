use sel4_shared_ring_buffer_smoltcp::device::{
    Capabilities, Descriptor, DeviceCore, Error, PeerMisbehaviorError, RxState, Transport, TxState,
};

fn caps() -> Capabilities {
    Capabilities { max_transmission_unit: 1500, max_burst_size: None }
}

// 2 receive and 2 transmit buffers of 16 bytes in a 64-byte region.
fn setup(bounce: usize) -> (DeviceCore, Transport) {
    let mut t = Transport::new(vec![0u8; 64]);
    let d = DeviceCore::new(&mut t, bounce, 2, 2, 16, caps()).unwrap();
    (d, t)
}

// The peer fills receive buffer `i` with `data`.
fn peer_fill(t: &mut Transport, i: usize, data: &[u8]) {
    let off = i * 16;
    t.region[off..off + data.len()].copy_from_slice(data);
    t.rx.from_peer.push_back(Descriptor { index: i, offset: off, len: data.len() });
}

#[test]
fn new_lays_out_buffers_and_hands_rx_to_peer() {
    let (d, t) = setup(64);
    assert_eq!(d.num_rx(), 2);
    assert_eq!(d.num_tx(), 2);
    assert_eq!(d.num_leased(), 0);
    let q: Vec<Descriptor> = t.rx.to_peer.iter().copied().collect();
    assert_eq!(
        q,
        vec![Descriptor { index: 0, offset: 0, len: 16 }, Descriptor { index: 1, offset: 16, len: 16 }]
    );
    assert_eq!(d.rx_state(0), RxState::WithPeer);
    assert_eq!(d.tx_state(1), TxState::Free);
    assert_eq!(*d.caps(), caps());
}

#[test]
fn new_rejects_bad_configuration() {
    let mut t = Transport::new(vec![0u8; 64]);
    assert_eq!(DeviceCore::new(&mut t, 64, 2, 2, 0, caps()).err(), Some(Error::InvalidConfiguration));
    assert_eq!(DeviceCore::new(&mut t, 64, 3, 2, 16, caps()).err(), Some(Error::InvalidConfiguration));
    assert_eq!(DeviceCore::new(&mut t, 64, 2, 3, 16, caps()).err(), Some(Error::InvalidConfiguration));
    assert!(t.rx.to_peer.is_empty());
    assert!(DeviceCore::new(&mut t, 64, 4, 0, 16, caps()).is_ok());
}

#[test]
fn receive_none_iff_nothing_waits() {
    let (mut d, mut t) = setup(64);
    assert_eq!(d.receive(&mut t), Ok(None));
    peer_fill(&mut t, 1, b"abc");
    assert_eq!(d.receive(&mut t), Ok(Some((1, 0))));
    assert_eq!(d.rx_frame(1), b"abc".to_vec());
    assert_eq!(d.receive(&mut t), Ok(None));
}

#[test]
fn receive_none_without_free_tx_buffer() {
    let (mut d, mut t) = setup(64);
    assert_eq!(d.transmit(), Ok(Some(0)));
    assert_eq!(d.transmit(), Ok(Some(1)));
    peer_fill(&mut t, 0, b"x");
    assert_eq!(d.receive(&mut t), Ok(None));
    assert_eq!(t.rx.from_peer.len(), 1);
}

#[test]
fn transmit_none_iff_no_free_buffer() {
    let (mut d, _t) = setup(64);
    assert_eq!(d.transmit(), Ok(Some(0)));
    assert_eq!(d.transmit(), Ok(Some(1)));
    assert_eq!(d.transmit(), Ok(None));
    d.drop_tx(0);
    assert_eq!(d.transmit(), Ok(Some(0)));
}

#[test]
fn transmit_reports_exhaustion() {
    let (mut d, _t) = setup(20);
    assert_eq!(d.transmit(), Ok(Some(0)));
    assert_eq!(d.transmit(), Err(Error::BounceBufferExhausted));
    assert_eq!(d.tx_state(1), TxState::Free);
    assert_eq!(d.num_leased(), 1);
}

#[test]
fn consume_tx_writes_frame_and_hands_it_to_peer() {
    let (mut d, mut t) = setup(64);
    let j = d.transmit().unwrap().unwrap();
    assert_eq!(d.consume_tx(&mut t, j, &b"hello".to_vec()), Ok(()));
    assert_eq!(&t.region[32..37], b"hello");
    assert_eq!(t.region[37], 0);
    let e = t.tx.to_peer.pop_front().unwrap();
    assert_eq!(e, Descriptor { index: 0, offset: 32, len: 5 });
    assert_eq!(d.tx_state(0), TxState::GivenToPeer);
    assert_eq!(d.num_leased(), 0);
    d.drop_tx(0);
    assert_eq!(d.tx_state(0), TxState::GivenToPeer);
}

#[test]
fn consume_tx_refuses_oversized_frame() {
    let (mut d, mut t) = setup(64);
    let j = d.transmit().unwrap().unwrap();
    assert_eq!(d.consume_tx(&mut t, j, &vec![7u8; 17]), Err(Error::FrameTooLarge));
    assert!(t.region.iter().all(|b| *b == 0));
    assert!(t.tx.to_peer.is_empty());
    assert_eq!(d.tx_state(j), TxState::Claimed(d_span(&d, j)));
    assert_eq!(d.consume_tx(&mut t, j, &vec![7u8; 16]), Ok(()));
}

fn d_span(d: &DeviceCore, j: usize) -> sel4_shared_ring_buffer_smoltcp::ledger::Span {
    match d.tx_state(j) {
        TxState::Claimed(s) => s,
        other => panic!("not claimed: {:?}", other),
    }
}

#[test]
fn dropped_tokens_return_ledger_to_baseline() {
    let (mut d, mut t) = setup(64);
    peer_fill(&mut t, 0, b"frame");
    let (i, j) = d.receive(&mut t).unwrap().unwrap();
    let j2 = d.transmit().unwrap().unwrap();
    assert_eq!(d.num_leased(), 3);
    d.drop_rx(&mut t, i);
    d.drop_tx(j);
    d.drop_tx(j2);
    assert_eq!(d.num_leased(), 0);
    // A second drop releases nothing more.
    d.drop_rx(&mut t, i);
    d.drop_tx(j);
    assert_eq!(d.num_leased(), 0);
    assert_eq!(d.rx_state(i), RxState::WithPeer);
    assert_eq!(t.rx.to_peer.back(), Some(&Descriptor { index: 0, offset: 0, len: 16 }));
    assert_eq!(t.rx.to_peer.len(), 3);
}

#[test]
fn consumed_rx_released_once() {
    let (mut d, mut t) = setup(64);
    peer_fill(&mut t, 1, b"zz");
    let (i, j) = d.receive(&mut t).unwrap().unwrap();
    d.consume_rx_finish(&mut t, i);
    d.drop_rx(&mut t, i);
    d.drop_tx(j);
    assert_eq!(d.num_leased(), 0);
    assert_eq!(t.rx.to_peer.len(), 3);
}

#[test]
fn loopback_round_trip() {
    let (mut d, mut t) = setup(64);
    let j = d.transmit().unwrap().unwrap();
    let mut frame = vec![0u8; 6];
    frame.copy_from_slice(b"ping!\n");
    d.consume_tx(&mut t, j, &frame).unwrap();
    // The peer echoes the sent frame into a receive buffer it was given.
    let sent = t.tx.to_peer.pop_front().unwrap();
    let rx = t.rx.to_peer.pop_front().unwrap();
    let bytes = t.region[sent.offset..sent.offset + sent.len].to_vec();
    t.region[rx.offset..rx.offset + bytes.len()].copy_from_slice(&bytes);
    t.rx.from_peer.push_back(Descriptor { index: rx.index, offset: rx.offset, len: bytes.len() });
    t.tx.from_peer.push_back(sent);
    assert_eq!(d.poll(&mut t), Ok(true));
    assert_eq!(d.tx_state(j), TxState::Free);
    let (i, _j) = d.receive(&mut t).unwrap().unwrap();
    // The peer scribbles over the region; the lent frame is a private copy.
    t.region[rx.offset] = 0xff;
    assert_eq!(d.rx_frame(i), b"ping!\n".to_vec());
}

#[test]
fn counts_add_up_to_buffer_count() {
    let (mut d, mut t) = setup(64);
    let a = d.transmit().unwrap().unwrap();
    d.consume_tx(&mut t, a, &vec![1u8; 3]).unwrap();
    let _b = d.transmit().unwrap().unwrap();
    let states: Vec<TxState> = (0..d.num_tx()).map(|j| d.tx_state(j)).collect();
    let free = states.iter().filter(|s| matches!(s, TxState::Free)).count();
    let claimed = states.iter().filter(|s| matches!(s, TxState::Claimed(_))).count();
    let given = states.iter().filter(|s| matches!(s, TxState::GivenToPeer)).count();
    assert_eq!((free, claimed, given), (0, 1, 1));
    assert_eq!(free + claimed + given, 2);
}

#[test]
fn poll_rejects_out_of_range_index() {
    let (mut d, mut t) = setup(64);
    let a = d.transmit().unwrap().unwrap();
    d.consume_tx(&mut t, a, &vec![1u8; 3]).unwrap();
    t.tx.from_peer.push_back(Descriptor { index: 9, offset: 0, len: 3 });
    assert_eq!(d.poll(&mut t), Err(Error::PeerMisbehavior(PeerMisbehaviorError::OutOfBoundsIndex)));
    assert!(t.tx.from_peer.is_empty());
    assert_eq!(d.tx_state(a), TxState::GivenToPeer);
    // Later operations go on as before.
    t.tx.from_peer.push_back(Descriptor { index: a, offset: 32, len: 3 });
    assert_eq!(d.poll(&mut t), Ok(true));
    assert_eq!(d.tx_state(a), TxState::Free);
    assert_eq!(d.transmit(), Ok(Some(0)));
}

#[test]
fn poll_rejects_double_return_and_wrong_offset() {
    let (mut d, mut t) = setup(64);
    t.tx.from_peer.push_back(Descriptor { index: 0, offset: 32, len: 3 });
    assert_eq!(d.poll(&mut t), Err(Error::PeerMisbehavior(PeerMisbehaviorError::StateMismatch)));
    let a = d.transmit().unwrap().unwrap();
    d.consume_tx(&mut t, a, &vec![1u8; 3]).unwrap();
    t.tx.from_peer.push_back(Descriptor { index: a, offset: 0, len: 3 });
    assert_eq!(d.poll(&mut t), Err(Error::PeerMisbehavior(PeerMisbehaviorError::DescriptorMismatch)));
    assert_eq!(d.poll(&mut t), Ok(false));
}

#[test]
fn receive_rejects_bad_entries() {
    let (mut d, mut t) = setup(64);
    t.rx.from_peer.push_back(Descriptor { index: 5, offset: 0, len: 1 });
    assert_eq!(d.receive(&mut t), Err(Error::PeerMisbehavior(PeerMisbehaviorError::OutOfBoundsIndex)));
    t.rx.from_peer.push_back(Descriptor { index: 0, offset: 0, len: 17 });
    assert_eq!(d.receive(&mut t), Err(Error::PeerMisbehavior(PeerMisbehaviorError::OutOfBoundsLength)));
    t.rx.from_peer.push_back(Descriptor { index: 0, offset: 8, len: 1 });
    assert_eq!(d.receive(&mut t), Err(Error::PeerMisbehavior(PeerMisbehaviorError::DescriptorMismatch)));
    peer_fill(&mut t, 0, b"ok");
    // The same buffer again, while it is lent out.
    t.rx.from_peer.push_back(Descriptor { index: 0, offset: 0, len: 2 });
    assert_eq!(d.receive(&mut t), Ok(Some((0, 0))));
    assert_eq!(d.receive(&mut t), Err(Error::PeerMisbehavior(PeerMisbehaviorError::StateMismatch)));
    assert_eq!(d.num_leased(), 2);
    assert_eq!(d.rx_frame(0), b"ok".to_vec());
}

#[test]
fn receive_reports_exhaustion_and_keeps_frame() {
    let (mut d, mut t) = setup(20);
    peer_fill(&mut t, 0, b"12345678");
    assert_eq!(d.receive(&mut t), Err(Error::BounceBufferExhausted));
    assert_eq!(t.rx.from_peer.len(), 1);
    assert_eq!(d.num_leased(), 0);
    assert_eq!(d.rx_state(0), RxState::WithPeer);
}

#[test]
fn zero_length_frame() {
    let (mut d, mut t) = setup(64);
    peer_fill(&mut t, 0, b"");
    let (i, j) = d.receive(&mut t).unwrap().unwrap();
    assert_eq!(d.rx_frame(i), Vec::<u8>::new());
    assert_eq!(d.num_leased(), 1);
    d.drop_rx(&mut t, i);
    d.drop_tx(j);
    assert_eq!(d.num_leased(), 0);
}

#[test]
fn poll_rejects_oversized_length() {
    let (mut d, mut t) = setup(64);
    let a = d.transmit().unwrap().unwrap();
    d.consume_tx(&mut t, a, &vec![1u8; 3]).unwrap();
    t.tx.from_peer.push_back(Descriptor { index: a, offset: 32, len: 17 });
    assert_eq!(d.poll(&mut t), Err(Error::PeerMisbehavior(PeerMisbehaviorError::OutOfBoundsLength)));
    assert_eq!(d.tx_state(a), TxState::GivenToPeer);
}

#[test]
fn poll_reports_no_change_when_only_a_frame_waits() {
    let (mut d, mut t) = setup(64);
    peer_fill(&mut t, 0, b"hi");
    assert_eq!(d.poll(&mut t), Ok(false));
    assert_eq!(t.rx.from_peer.len(), 1);
}

#[test]
fn poll_stops_at_bad_entry_and_keeps_the_rest() {
    let (mut d, mut t) = setup(64);
    let a = d.transmit().unwrap().unwrap();
    let b = d.transmit().unwrap().unwrap();
    d.consume_tx(&mut t, a, &vec![1u8; 3]).unwrap();
    d.consume_tx(&mut t, b, &vec![2u8; 3]).unwrap();
    t.tx.from_peer.push_back(Descriptor { index: a, offset: 32, len: 3 });
    t.tx.from_peer.push_back(Descriptor { index: 9, offset: 0, len: 3 });
    t.tx.from_peer.push_back(Descriptor { index: b, offset: 48, len: 3 });
    assert_eq!(d.poll(&mut t), Err(Error::PeerMisbehavior(PeerMisbehaviorError::OutOfBoundsIndex)));
    assert_eq!(d.tx_state(a), TxState::Free);
    assert_eq!(d.tx_state(b), TxState::GivenToPeer);
    assert_eq!(t.tx.from_peer.len(), 1);
    assert_eq!(d.poll(&mut t), Ok(true));
    assert_eq!(d.tx_state(b), TxState::Free);
}

#[test]
fn receive_exhaustion_only_without_room() {
    // 16 + 16 bytes fit exactly; a frame of 16 and its reply buffer of 16.
    let (mut d, mut t) = setup(32);
    peer_fill(&mut t, 0, &[9u8; 16]);
    assert!(matches!(d.receive(&mut t), Ok(Some(_))));
    peer_fill(&mut t, 1, b"a");
    assert_eq!(d.receive(&mut t), Err(Error::BounceBufferExhausted));
    assert_eq!(d.num_leased(), 2);
}
