use sel4_shared_ring_buffer_smoltcp::ledger::{BounceLedger, Exhausted, Span};

#[test]
fn lease_first_fit() {
    let mut l = BounceLedger::new(10);
    assert_eq!(l.lease(4), Ok(Span { offset: 0, len: 4 }));
    assert_eq!(l.lease(3), Ok(Span { offset: 4, len: 3 }));
    l.release(Span { offset: 0, len: 4 });
    assert_eq!(l.lease(2), Ok(Span { offset: 0, len: 2 }));
    assert_eq!(l.lease(3), Ok(Span { offset: 7, len: 3 }));
    assert_eq!(l.lease(2), Ok(Span { offset: 2, len: 2 }));
    assert_eq!(l.num_leased(), 4);
    assert_eq!(l.region_size(), 10);
}

#[test]
fn lease_exhausted_when_no_gap_is_long_enough() {
    let mut l = BounceLedger::new(10);
    let a = l.lease(3).unwrap();
    let _b = l.lease(3).unwrap();
    let _c = l.lease(3).unwrap();
    l.release(a);
    // Free: [0, 3) and [9, 10): four bytes in all, but not together.
    assert_eq!(l.lease(4), Err(Exhausted));
    assert_eq!(l.num_leased(), 2);
    assert_eq!(l.lease(11), Err(Exhausted));
}

#[test]
fn empty_lease_always_granted_and_not_recorded() {
    let mut l = BounceLedger::new(0);
    assert_eq!(l.lease(0), Ok(Span { offset: 0, len: 0 }));
    assert_eq!(l.num_leased(), 0);
    assert_eq!(l.lease(1), Err(Exhausted));
}

#[test]
fn leased_spans_never_overlap() {
    let mut l = BounceLedger::new(64);
    let mut live: Vec<Span> = Vec::new();
    for (k, n) in [5usize, 9, 3, 12, 7, 1, 8].iter().enumerate() {
        if k % 3 == 2 {
            let s = live.remove(0);
            l.release(s);
        }
        if let Ok(s) = l.lease(*n) {
            for x in &live {
                assert!(x.offset + x.len <= s.offset || s.offset + s.len <= x.offset);
            }
            assert!(s.offset + s.len <= 64);
            live.push(s);
        }
    }
    assert_eq!(l.num_leased(), live.len());
}
