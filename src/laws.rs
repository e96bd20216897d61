use vstd::prelude::*;

use crate::device::{tx_returns, with_span, written, Descriptor, PeerMisbehaviorError, TxState};
use crate::ledger::{fits, overlaps, Span};

verus! {

/// A span that fits beside `leased` is not among them, unless it is empty.
proof fn lemma_fresh(leased: Set<Span>, size: nat, s: Span)
    requires
        fits(leased, size, s),
        s.len > 0,
    ensures
        !leased.contains(s),
{
    if leased.contains(s) {
        assert(!overlaps(s, s));
    }
}

/// Releasing the span that a lease just recorded gives back the ledger as
/// it was: a buffer that is claimed and then dropped unused leaves no trace.
pub proof fn lemma_lease_then_release(leased: Set<Span>, size: nat, s: Span)
    requires
        fits(leased, size, s),
        forall|x: Span| #[trigger] leased.contains(x) ==> x.len > 0,
    ensures
        with_span(leased, s).remove(s) == leased,
{
    if s.len > 0 {
        lemma_fresh(leased, size, s);
    }
    assert(with_span(leased, s).remove(s) =~= leased);
}

/// A received frame's span and its reply buffer's span, released one after
/// the other whether or not the frame was read, give back the ledger as it
/// was before the receive.
pub proof fn lemma_receive_then_release(leased: Set<Span>, size: nat, rs: Span, ts: Span)
    requires
        fits(leased, size, rs),
        fits(with_span(leased, rs), size, ts),
        forall|x: Span| #[trigger] leased.contains(x) ==> x.len > 0,
    ensures
        with_span(with_span(leased, rs), ts).remove(rs).remove(ts) == leased,
{
    if rs.len > 0 {
        lemma_fresh(leased, size, rs);
    }
    if ts.len > 0 {
        lemma_fresh(with_span(leased, rs), size, ts);
    }
    if rs.len > 0 && ts.len > 0 {
        assert(with_span(leased, rs).contains(rs));
        assert(!overlaps(rs, ts));
    }
    assert(with_span(with_span(leased, rs), ts).remove(rs).remove(ts) =~= leased);
}

pub open spec fn count_free(states: Seq<TxState>) -> nat
    decreases states.len(),
{
    if states.len() == 0 {
        0
    } else {
        count_free(states.drop_last()) + if states.last() is Free { 1nat } else { 0nat }
    }
}

pub open spec fn count_claimed(states: Seq<TxState>) -> nat
    decreases states.len(),
{
    if states.len() == 0 {
        0
    } else {
        count_claimed(states.drop_last()) + if states.last() is Claimed { 1nat } else { 0nat }
    }
}

pub open spec fn count_given(states: Seq<TxState>) -> nat
    decreases states.len(),
{
    if states.len() == 0 {
        0
    } else {
        count_given(states.drop_last()) + if states.last() is GivenToPeer { 1nat } else { 0nat }
    }
}

/// Every transmit buffer is in exactly one place: free, claimed by the
/// stack, or with the peer. The three counts add up to the number of
/// buffers in any state that the device reaches.
pub proof fn lemma_tx_partition(states: Seq<TxState>)
    ensures
        count_free(states) + count_claimed(states) + count_given(states) == states.len(),
    decreases states.len(),
{
    if states.len() > 0 {
        lemma_tx_partition(states.drop_last());
    }
}

/// A returned transmit entry whose index names no buffer is refused as peer
/// misbehaviour, leaves every state as it was, and only it leaves the queue.
pub proof fn lemma_out_of_range_rejected(states: Seq<TxState>, offsets: Seq<usize>, buffer_size: nat, q: Seq<Descriptor>)
    requires
        q.len() > 0,
        q[0].index >= states.len(),
    ensures
        tx_returns(states, offsets, buffer_size, q) == (states, Some(PeerMisbehaviorError::OutOfBoundsIndex), 1nat),
{
}

/// Taking back returned entries only ever frees buffers that were with the
/// peer: a buffer that is free or held by the stack keeps its state, whatever
/// the peer puts in the queue.
pub proof fn lemma_returns_only_free_given(states: Seq<TxState>, offsets: Seq<usize>, buffer_size: nat, q: Seq<Descriptor>)
    ensures
        ({
            let res = tx_returns(states, offsets, buffer_size, q).0;
            &&& res.len() == states.len()
            &&& forall|j: int| 0 <= j < states.len() ==> #[trigger] res[j] == states[j]
                || (states[j] is GivenToPeer && res[j] is Free)
        }),
    decreases q.len(),
{
    if q.len() > 0 {
        if crate::device::tx_entry_error(states, offsets, buffer_size, q[0]) is None {
            let next = states.update(q[0].index as int, TxState::Free);
            lemma_returns_only_free_given(next, offsets, buffer_size, q.drop_first());
            let res = tx_returns(states, offsets, buffer_size, q).0;
            assert forall|j: int| 0 <= j < states.len() implies #[trigger] res[j] == states[j]
                || (states[j] is GivenToPeer && res[j] is Free) by {
                assert(res[j] == next[j] || (next[j] is GivenToPeer && res[j] is Free));
            }
        }
    }
}

/// Round trip. `consume_tx` writes `frame` at `tx_off` of the region; a
/// loopback peer copies those bytes to a receive buffer at `rx_off`; and
/// `receive` copies that many bytes from `rx_off` into a bounce span at
/// `span_off`. The span then holds exactly `frame`, which is what
/// `rx_frame` hands to the stack.
pub proof fn lemma_round_trip(
    frame: Seq<u8>,
    region0: Seq<u8>,
    region1: Seq<u8>,
    tx_off: int,
    echoed: Seq<u8>,
    rx_off: int,
    scratch0: Seq<u8>,
    scratch1: Seq<u8>,
    span_off: int,
)
    requires
        0 <= tx_off && tx_off + frame.len() <= region0.len(),
        0 <= rx_off && rx_off + frame.len() <= region0.len(),
        0 <= span_off && span_off + frame.len() <= scratch0.len(),
        written(region0, region1, tx_off, frame, frame.len() as int),
        written(region1, echoed, rx_off, region1.subrange(tx_off, tx_off + frame.len()), frame.len() as int),
        written(scratch0, scratch1, span_off, echoed.subrange(rx_off, rx_off + frame.len()), frame.len() as int),
    ensures
        scratch1.subrange(span_off, span_off + frame.len()) == frame,
{
    let n = frame.len() as int;
    assert forall|k: int| 0 <= k < n implies #[trigger] scratch1.subrange(span_off, span_off + n)[k] == frame[k] by {
        assert(scratch1[span_off + k] == echoed.subrange(rx_off, rx_off + n)[k]);
        assert(echoed[rx_off + k] == region1.subrange(tx_off, tx_off + n)[k]);
        assert(region1[tx_off + k] == frame[k]);
    }
    assert(scratch1.subrange(span_off, span_off + n) =~= frame);
}

} // verus!
