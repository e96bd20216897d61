use vstd::prelude::*;
use std::collections::VecDeque;

use crate::ledger::{fits, fits_at, span_end, BounceLedger, Span};

verus! {

/// A ring entry: which buffer, where it starts in the DMA region, and how many bytes it holds.
#[derive(Copy, Clone, Debug, PartialEq, Eq, Structural)]
pub struct Descriptor {
    pub index: usize,
    pub offset: usize,
    pub len: usize,
}

/// The two queues of one direction of the transport. The device pushes onto
/// `to_peer` and pops from `from_peer`; the peer does the reverse. What the
/// peer puts there is not trusted.
pub struct RingBuffers {
    pub to_peer: VecDeque<Descriptor>,
    pub from_peer: VecDeque<Descriptor>,
}

impl RingBuffers {
    /// Both queues empty.
    pub fn new() -> (r: Self)
        ensures
            r.to_peer@.len() == 0,
            r.from_peer@.len() == 0,
    {
        RingBuffers { to_peer: VecDeque::new(), from_peer: VecDeque::new() }
    }
}

/// Memory shared with the peer: the DMA region that holds the buffers, and
/// the queues of each direction.
pub struct Transport {
    pub region: Vec<u8>,
    pub rx: RingBuffers,
    pub tx: RingBuffers,
}

impl Transport {
    /// A region of `region` bytes with empty queues.
    pub fn new(region: Vec<u8>) -> (r: Self)
        ensures
            r.region@ == region@,
            r.rx.to_peer@.len() == 0,
            r.rx.from_peer@.len() == 0,
            r.tx.to_peer@.len() == 0,
            r.tx.from_peer@.len() == 0,
    {
        Transport { region, rx: RingBuffers::new(), tx: RingBuffers::new() }
    }
}

/// What the network stack may rely on; fixed when the device is built.
#[derive(Copy, Clone, Debug, PartialEq, Eq, Structural)]
pub struct Capabilities {
    pub max_transmission_unit: usize,
    pub max_burst_size: Option<usize>,
}

/// Ways in which a ring entry from the peer can be wrong.
#[derive(Copy, Clone, Debug, PartialEq, Eq, Structural)]
pub enum PeerMisbehaviorError {
    OutOfBoundsIndex,
    OutOfBoundsLength,
    DescriptorMismatch,
    StateMismatch,
}

#[derive(Copy, Clone, Debug, PartialEq, Eq, Structural)]
pub enum Error {
    /// Buffer counts, buffer size and DMA region do not agree.
    InvalidConfiguration,
    /// The bounce region has no free range large enough; retry later.
    BounceBufferExhausted,
    /// A frame longer than the transmit buffer.
    FrameTooLarge,
    PeerMisbehavior(PeerMisbehaviorError),
}

/// Where a receive buffer is: filled or being filled by the peer, or lent
/// to the stack with its frame copied into a bounce span.
#[derive(Copy, Clone, Debug, PartialEq, Eq, Structural)]
pub enum RxState {
    WithPeer,
    Lent(Span),
}

/// Where a transmit buffer is: free here, claimed for a frame with its
/// bounce span, or handed to the peer until it comes back.
#[derive(Copy, Clone, Debug, PartialEq, Eq, Structural)]
pub enum TxState {
    Free,
    Claimed(Span),
    GivenToPeer,
}

pub open spec fn rx_span(st: RxState) -> Option<Span> {
    match st {
        RxState::Lent(s) => Some(s),
        _ => None,
    }
}

pub open spec fn tx_span(st: TxState) -> Option<Span> {
    match st {
        TxState::Claimed(s) => Some(s),
        _ => None,
    }
}

/// `j` is the lowest transmit buffer that is free.
pub open spec fn is_first_free(states: Seq<TxState>, j: int) -> bool {
    &&& 0 <= j < states.len()
    &&& states[j] is Free
    &&& forall|k: int| 0 <= k < j ==> !(#[trigger] states[k] is Free)
}

pub open spec fn has_free(states: Seq<TxState>) -> bool {
    exists|j: int| 0 <= j < states.len() && #[trigger] states[j] is Free
}

/// `after` is `before` with `len` bytes from `data` written at `offset`.
pub open spec fn written(before: Seq<u8>, after: Seq<u8>, offset: int, data: Seq<u8>, len: int) -> bool {
    &&& after.len() == before.len()
    &&& forall|k: int| 0 <= k < after.len() ==> #[trigger] after[k] == if offset <= k < offset + len {
        data[k - offset]
    } else {
        before[k]
    }
}

/// `leased` with `s` recorded, where `s` is not empty.
pub open spec fn with_span(leased: Set<Span>, s: Span) -> Set<Span> {
    if s.len > 0 {
        leased.insert(s)
    } else {
        leased
    }
}

/// What is wrong, if anything, with a returned transmit entry `e`.
pub open spec fn tx_entry_error(
    states: Seq<TxState>,
    offsets: Seq<usize>,
    buffer_size: nat,
    e: Descriptor,
) -> Option<PeerMisbehaviorError> {
    if e.index >= states.len() {
        Some(PeerMisbehaviorError::OutOfBoundsIndex)
    } else if !(states[e.index as int] is GivenToPeer) {
        Some(PeerMisbehaviorError::StateMismatch)
    } else if e.offset != offsets[e.index as int] {
        Some(PeerMisbehaviorError::DescriptorMismatch)
    } else if e.len > buffer_size {
        Some(PeerMisbehaviorError::OutOfBoundsLength)
    } else {
        None
    }
}

/// Taking back the returned transmit entries of `q` in order, stopping at
/// the first wrong one: the states after the entries taken back, the fault
/// of the wrong entry if there is one, and how many entries leave the queue
/// (the wrong one included).
pub open spec fn tx_returns(states: Seq<TxState>, offsets: Seq<usize>, buffer_size: nat, q: Seq<Descriptor>) -> (
    Seq<TxState>,
    Option<PeerMisbehaviorError>,
    nat,
)
    decreases q.len(),
{
    if q.len() == 0 {
        (states, None, 0)
    } else {
        match tx_entry_error(states, offsets, buffer_size, q[0]) {
            Some(err) => (states, Some(err), 1),
            None => {
                let r = tx_returns(states.update(q[0].index as int, TxState::Free), offsets, buffer_size, q.drop_first());
                (r.0, r.1, r.2 + 1)
            },
        }
    }
}

/// Each held span lies in the scratch region, each non-empty one is leased,
/// and no two holders share a non-empty span.
pub open spec fn holdings_ok(h: Seq<Option<Span>>, leased: Set<Span>, size: nat) -> bool {
    &&& forall|k: int| 0 <= k < h.len() && (#[trigger] h[k]) is Some ==> span_end(h[k]->0) <= size
    &&& forall|k: int| 0 <= k < h.len() && (#[trigger] h[k]) is Some && h[k]->0.len > 0 ==> leased.contains(h[k]->0)
    &&& forall|a: int, b: int|
        0 <= a < h.len() && 0 <= b < h.len() && a != b && (#[trigger] h[a]) is Some && (#[trigger] h[b]) is Some
            && h[a]->0.len > 0 ==> h[a]->0 != h[b]->0
}

proof fn lemma_holdings_release(h: Seq<Option<Span>>, leased: Set<Span>, size: nat, k: int)
    requires
        holdings_ok(h, leased, size),
        0 <= k < h.len(),
        h[k] is Some,
    ensures
        holdings_ok(h.update(k, None), if h[k]->0.len > 0 { leased.remove(h[k]->0) } else { leased }, size),
{
    let t = h.update(k, None);
    let l2 = if h[k]->0.len > 0 { leased.remove(h[k]->0) } else { leased };
    assert forall|j: int| 0 <= j < t.len() && (#[trigger] t[j]) is Some && t[j]->0.len > 0 implies l2.contains(t[j]->0) by {
        assert(h[j] == t[j]);
        assert(h[j] is Some && h[k] is Some);
    }
    assert forall|a: int, b: int|
        0 <= a < t.len() && 0 <= b < t.len() && a != b && (#[trigger] t[a]) is Some && (#[trigger] t[b]) is Some
            && t[a]->0.len > 0 implies t[a]->0 != t[b]->0 by {
        assert(h[a] == t[a] && h[b] == t[b]);
    }
}

proof fn lemma_holdings_acquire(h: Seq<Option<Span>>, leased: Set<Span>, size: nat, k: int, s: Span)
    requires
        holdings_ok(h, leased, size),
        0 <= k < h.len(),
        h[k] is None,
        fits(leased, size, s),
    ensures
        holdings_ok(h.update(k, Some(s)), if s.len > 0 { leased.insert(s) } else { leased }, size),
{
    let t = h.update(k, Some(s));
    let l2 = if s.len > 0 { leased.insert(s) } else { leased };
    if s.len > 0 {
        assert(!leased.contains(s)) by {
            if leased.contains(s) {
                assert(!crate::ledger::overlaps(s, s));
            }
        }
    }
    assert forall|j: int| 0 <= j < t.len() && (#[trigger] t[j]) is Some && t[j]->0.len > 0 implies l2.contains(t[j]->0) by {
        if j != k {
            assert(h[j] == t[j]);
        }
    }
    assert forall|j: int| 0 <= j < t.len() && (#[trigger] t[j]) is Some implies span_end(t[j]->0) <= size by {
        if j != k {
            assert(h[j] == t[j]);
        }
    }
    assert forall|a: int, b: int|
        0 <= a < t.len() && 0 <= b < t.len() && a != b && (#[trigger] t[a]) is Some && (#[trigger] t[b]) is Some
            && t[a]->0.len > 0 implies t[a]->0 != t[b]->0 by {
        if a == k {
            assert(h[b] == t[b]);
            if t[b]->0.len > 0 {
                assert(leased.contains(h[b]->0));
            }
        } else if b == k {
            assert(h[a] == t[a]);
            assert(leased.contains(h[a]->0));
        } else {
            assert(h[a] == t[a] && h[b] == t[b]);
        }
    }
}

/// Copies `len` bytes of `src` from `src_off` over `dst` from `dst_off`.
fn copy_bytes(dst: &mut Vec<u8>, dst_off: usize, src: &Vec<u8>, src_off: usize, len: usize)
    requires
        dst_off + len <= old(dst)@.len(),
        src_off + len <= src@.len(),
    ensures
        final(dst)@.len() == old(dst)@.len(),
        forall|k: int| 0 <= k < final(dst)@.len() ==> #[trigger] final(dst)@[k] == if dst_off <= k < dst_off + len {
            src@[src_off + k - dst_off]
        } else {
            old(dst)@[k]
        },
{
    let src_len = src.len();
    let dst_len = dst.len();
    let mut i: usize = 0;
    while i < len
        invariant
            i <= len,
            src_len == src@.len(),
            dst_len == old(dst)@.len(),
            dst_off + len <= old(dst)@.len(),
            src_off + len <= src@.len(),
            dst@.len() == old(dst)@.len(),
            forall|k: int| 0 <= k < dst@.len() ==> #[trigger] dst@[k] == if dst_off <= k < dst_off + i {
                src@[src_off + k - dst_off]
            } else {
                old(dst)@[k]
            },
        decreases len - i,
    {
        let b = src[src_off + i];
        dst.set(dst_off + i, b);
        i = i + 1;
    }
}

/// `count` zero bytes.
fn zeroed(count: usize) -> (r: Vec<u8>)
    ensures
        r@ == Seq::new(count as nat, |k: int| 0u8),
{
    let mut v: Vec<u8> = Vec::new();
    let mut i: usize = 0;
    while i < count
        invariant
            i <= count,
            v@ == Seq::new(i as nat, |k: int| 0u8),
        decreases count - i,
    {
        v.push(0u8);
        i = i + 1;
        assert(v@ =~= Seq::new(i as nat, |k: int| 0u8));
    }
    v
}

/// Offsets of `count` buffers of `size` bytes laid end to end from `start`,
/// or `None` where they would run past `limit`.
fn layout(start: usize, count: usize, size: usize, limit: usize) -> (r: Option<Vec<usize>>)
    requires
        start <= limit,
    ensures
        r is None <==> start + count * size > limit,
        r matches Some(v) ==> v@ == Seq::new(count as nat, |k: int| (start + k * size) as usize),
{
    let mut v: Vec<usize> = Vec::new();
    let mut off: usize = start;
    let mut i: usize = 0;
    while i < count
        invariant
            i <= count,
            off == start + i * size,
            off <= limit,
            v@ == Seq::new(i as nat, |k: int| (start + k * size) as usize),
        decreases count - i,
    {
        if limit - off < size {
            assert(start + count * size > limit) by (nonlinear_arith)
                requires
                    i < count,
                    off == start + i * size,
                    limit - off < size,
                    size >= 0,
            ;
            return None;
        }
        v.push(off);
        assert(off + size == start + (i + 1) * size) by (nonlinear_arith)
            requires
                off == start + i * size,
        ;
        off = off + size;
        i = i + 1;
        assert(v@ =~= Seq::new(i as nat, |k: int| (start + k * size) as usize));
    }
    Some(v)
}

/// The device's own state: the private bounce scratch and its ledger, the
/// layout of the DMA region, and where each buffer is.
pub struct DeviceCore {
    region_len: usize,
    bounce: Vec<u8>,
    ledger: BounceLedger,
    buffer_size: usize,
    rx_offsets: Vec<usize>,
    rx_states: Vec<RxState>,
    tx_offsets: Vec<usize>,
    tx_states: Vec<TxState>,
    caps: Capabilities,
}

impl DeviceCore {
    pub closed spec fn rx_states(&self) -> Seq<RxState> {
        self.rx_states@
    }

    pub closed spec fn tx_states(&self) -> Seq<TxState> {
        self.tx_states@
    }

    /// The bounce spans leased out.
    pub closed spec fn leased(&self) -> Set<Span> {
        self.ledger@
    }

    /// Length of the DMA region that the buffers were laid out in.
    pub closed spec fn region_len(&self) -> nat {
        self.region_len as nat
    }

    /// The bounce scratch's bytes.
    pub closed spec fn scratch(&self) -> Seq<u8> {
        self.bounce@
    }

    pub closed spec fn buffer_size(&self) -> nat {
        self.buffer_size as nat
    }

    pub closed spec fn rx_offset(&self, i: int) -> nat {
        self.rx_offsets@[i] as nat
    }

    pub closed spec fn tx_offset(&self, j: int) -> nat {
        self.tx_offsets@[j] as nat
    }

    pub closed spec fn rx_offsets(&self) -> Seq<usize> {
        self.rx_offsets@
    }

    pub closed spec fn tx_offsets(&self) -> Seq<usize> {
        self.tx_offsets@
    }

    pub closed spec fn caps_spec(&self) -> Capabilities {
        self.caps
    }

    /// The span held by each buffer, receive buffers first.
    pub closed spec fn holdings(&self) -> Seq<Option<Span>> {
        self.rx_states@.map_values(|st: RxState| rx_span(st)) + self.tx_states@.map_values(|st: TxState| tx_span(st))
    }

    pub closed spec fn wf(&self) -> bool {
        &&& self.ledger.wf()
        &&& self.ledger.size() == self.bounce@.len()
        &&& self.buffer_size > 0
        &&& self.rx_offsets@.len() == self.rx_states@.len()
        &&& self.tx_offsets@.len() == self.tx_states@.len()
        &&& forall|i: int| 0 <= i < self.rx_offsets@.len() ==> #[trigger] self.rx_offsets@[i] + self.buffer_size <= self.region_len
        &&& forall|j: int| 0 <= j < self.tx_offsets@.len() ==> #[trigger] self.tx_offsets@[j] + self.buffer_size <= self.region_len
        &&& forall|j: int| 0 <= j < self.tx_states@.len() && (#[trigger] self.tx_states@[j]) is Claimed
            ==> self.tx_states@[j]->Claimed_0.len == self.buffer_size
        &&& holdings_ok(self.holdings(), self.ledger@, self.bounce@.len())
    }

    /// Lays out `num_rx` receive buffers and then `num_tx` transmit buffers
    /// of `buffer_size` bytes from the start of the transport's region,
    /// hands every receive buffer to the peer, and keeps a bounce scratch of
    /// `bounce_size` bytes.
    pub fn new(
        t: &mut Transport,
        bounce_size: usize,
        num_rx: usize,
        num_tx: usize,
        buffer_size: usize,
        caps: Capabilities,
    ) -> (r: Result<Self, Error>)
        ensures
            r is Err <==> buffer_size == 0 || (num_rx + num_tx) * buffer_size > old(t).region@.len(),
            r is Err ==> r == Err::<Self, Error>(Error::InvalidConfiguration) && *final(t) == *old(t),
            final(t).region == old(t).region,
            final(t).rx.from_peer == old(t).rx.from_peer,
            final(t).tx == old(t).tx,
            r matches Ok(d) ==> {
                &&& d.wf()
                &&& d.region_len() == old(t).region@.len()
                &&& d.scratch().len() == bounce_size
                &&& d.leased() == Set::<Span>::empty()
                &&& d.buffer_size() == buffer_size
                &&& d.caps_spec() == caps
                &&& d.rx_states() == Seq::new(num_rx as nat, |i: int| RxState::WithPeer)
                &&& d.tx_states() == Seq::new(num_tx as nat, |j: int| TxState::Free)
                &&& forall|i: int| 0 <= i < num_rx ==> #[trigger] d.rx_offset(i) == i * buffer_size
                &&& forall|j: int| 0 <= j < num_tx ==> #[trigger] d.tx_offset(j) == (num_rx + j) * buffer_size
                &&& final(t).rx.to_peer@ == old(t).rx.to_peer@ + Seq::new(num_rx as nat, |i: int| Descriptor {
                    index: i as usize,
                    offset: (i * buffer_size) as usize,
                    len: buffer_size,
                })
            },
    {
        if buffer_size == 0 {
            return Err(Error::InvalidConfiguration);
        }
        let dma_len = t.region.len();
        let rx_offsets = match layout(0, num_rx, buffer_size, dma_len) {
            Some(v) => v,
            None => {
                assert((num_rx + num_tx) * buffer_size >= num_rx * buffer_size) by (nonlinear_arith)
                    requires
                        num_tx >= 0,
                        buffer_size >= 0,
                ;
                return Err(Error::InvalidConfiguration);
            },
        };
        let tx_start = num_rx * buffer_size;
        assert((num_rx + num_tx) * buffer_size == num_rx * buffer_size + num_tx * buffer_size) by (nonlinear_arith);
        let tx_offsets = match layout(tx_start, num_tx, buffer_size, dma_len) {
            Some(v) => v,
            None => {
                return Err(Error::InvalidConfiguration);
            },
        };
        let ghost q0 = t.rx.to_peer@;
        let mut rx_states: Vec<RxState> = Vec::new();
        let mut i: usize = 0;
        while i < num_rx
            invariant
                i <= num_rx,
                rx_offsets@ == Seq::new(num_rx as nat, |k: int| (0 + k * buffer_size) as usize),
                rx_states@ == Seq::new(i as nat, |k: int| RxState::WithPeer),
                t.rx.to_peer@ == q0 + Seq::new(i as nat, |k: int| Descriptor {
                    index: k as usize,
                    offset: (k * buffer_size) as usize,
                    len: buffer_size,
                }),
                t.region == old(t).region,
                t.rx.from_peer == old(t).rx.from_peer,
                t.tx == old(t).tx,
            decreases num_rx - i,
        {
            rx_states.push(RxState::WithPeer);
            t.rx.to_peer.push_back(Descriptor { index: i, offset: rx_offsets[i], len: buffer_size });
            i = i + 1;
            assert(rx_states@ =~= Seq::new(i as nat, |k: int| RxState::WithPeer));
            assert(t.rx.to_peer@ =~= q0 + Seq::new(i as nat, |k: int| Descriptor {
                index: k as usize,
                offset: (k * buffer_size) as usize,
                len: buffer_size,
            }));
        }
        let mut tx_states: Vec<TxState> = Vec::new();
        let mut j: usize = 0;
        while j < num_tx
            invariant
                j <= num_tx,
                tx_states@ == Seq::new(j as nat, |k: int| TxState::Free),
            decreases num_tx - j,
        {
            tx_states.push(TxState::Free);
            j = j + 1;
            assert(tx_states@ =~= Seq::new(j as nat, |k: int| TxState::Free));
        }
        let bounce = zeroed(bounce_size);
        let d = DeviceCore {
            region_len: dma_len,
            bounce,
            ledger: BounceLedger::new(bounce_size),
            buffer_size,
            rx_offsets,
            rx_states,
            tx_offsets,
            tx_states,
            caps,
        };
        proof {
            assert forall|i: int| 0 <= i < d.rx_offsets@.len() implies #[trigger] d.rx_offsets@[i] + d.buffer_size <= d.region_len by {
                assert(i * buffer_size + buffer_size <= num_rx * buffer_size) by (nonlinear_arith)
                    requires
                        0 <= i < num_rx,
                        buffer_size > 0,
                ;
            }
            assert forall|j: int| 0 <= j < d.tx_offsets@.len() implies #[trigger] d.tx_offsets@[j] + d.buffer_size <= d.region_len by {
                assert(j * buffer_size + buffer_size <= num_tx * buffer_size) by (nonlinear_arith)
                    requires
                        0 <= j < num_tx,
                        buffer_size > 0,
                ;
            }
            assert forall|j: int| 0 <= j < num_tx implies #[trigger] d.tx_offset(j) == (num_rx + j) * buffer_size by {
                assert((num_rx + j) * buffer_size == num_rx * buffer_size + j * buffer_size) by (nonlinear_arith);
                assert(j * buffer_size <= num_tx * buffer_size) by (nonlinear_arith)
                    requires
                        0 <= j < num_tx,
                        buffer_size > 0,
                ;
            }
            assert forall|i: int| 0 <= i < num_rx implies #[trigger] d.rx_offset(i) == i * buffer_size by {
                assert(i * buffer_size <= num_rx * buffer_size) by (nonlinear_arith)
                    requires
                        0 <= i < num_rx,
                        buffer_size > 0,
                ;
            }
            assert(d.ledger@ == Set::<Span>::empty());
            assert(holdings_ok(d.holdings(), d.ledger@, d.bounce@.len()));
            assert(d.wf());
            let h = d.holdings();
            assert forall|k: int| 0 <= k < h.len() implies #[trigger] h[k] is None by {
                if k < num_rx {
                    assert(h[k] == rx_span(d.rx_states@[k]));
                } else {
                    assert(h[k] == tx_span(d.tx_states@[k - num_rx]));
                }
            }
        }
        Ok(d)
    }

    /// The capabilities given at construction.
    pub fn caps(&self) -> (r: &Capabilities)
        ensures
            *r == self.caps_spec(),
    {
        &self.caps
    }

    /// What no operation changes: the layout and the capabilities.
    pub open spec fn same_layout(&self, other: &Self) -> bool {
        &&& self.region_len() == other.region_len()
        &&& self.buffer_size() == other.buffer_size()
        &&& self.rx_offsets() == other.rx_offsets()
        &&& self.tx_offsets() == other.tx_offsets()
        &&& self.caps_spec() == other.caps_spec()
        &&& self.scratch().len() == other.scratch().len()
        &&& self.rx_states().len() == other.rx_states().len()
        &&& self.tx_states().len() == other.tx_states().len()
    }

    /// Each buffer lies inside the region, and each span that a buffer holds
    /// lies inside the scratch; a claimed transmit buffer's span is one
    /// buffer long.
    pub proof fn lemma_layout(&self)
        requires
            self.wf(),
        ensures
            self.buffer_size() > 0,
            self.rx_offsets().len() == self.rx_states().len(),
            self.tx_offsets().len() == self.tx_states().len(),
            forall|i: int| 0 <= i < self.rx_offsets().len() ==> #[trigger] self.rx_offsets()[i] + self.buffer_size() <= self.region_len(),
            forall|j: int| 0 <= j < self.tx_offsets().len() ==> #[trigger] self.tx_offsets()[j] + self.buffer_size() <= self.region_len(),
            forall|i: int| 0 <= i < self.rx_states().len() && (#[trigger] self.rx_states()[i]) is Lent
                ==> span_end(self.rx_states()[i]->Lent_0) <= self.scratch().len(),
            forall|j: int| 0 <= j < self.tx_states().len() && (#[trigger] self.tx_states()[j]) is Claimed ==> {
                &&& span_end(self.tx_states()[j]->Claimed_0) <= self.scratch().len()
                &&& self.tx_states()[j]->Claimed_0.len == self.buffer_size()
            },
    {
        let h = self.holdings();
        let n = self.rx_states@.len();
        assert forall|i: int| 0 <= i < self.rx_states().len() && (#[trigger] self.rx_states()[i]) is Lent
            implies span_end(self.rx_states()[i]->Lent_0) <= self.scratch().len() by {
            assert(h[i] == rx_span(self.rx_states@[i]));
        }
        assert forall|j: int| 0 <= j < self.tx_states().len() && (#[trigger] self.tx_states()[j]) is Claimed
            implies span_end(self.tx_states()[j]->Claimed_0) <= self.scratch().len() by {
            assert(h[n + j] == tx_span(self.tx_states@[j]));
        }
    }

    /// Leased spans are never empty, and no two of them share a byte.
    pub proof fn lemma_leased_disjoint(&self, a: Span, b: Span)
        requires
            self.wf(),
            self.leased().contains(a),
            self.leased().contains(b),
        ensures
            a.len > 0,
            span_end(a) <= self.scratch().len(),
            a != b ==> !crate::ledger::overlaps(a, b),
    {
        self.ledger.lemma_leased_nonempty(a);
        if a != b {
            self.ledger.lemma_leased_disjoint(a, b);
        }
    }

    /// Length of the region that the buffers were laid out in.
    pub fn region_size(&self) -> (r: usize)
        ensures
            r == self.region_len(),
    {
        self.region_len
    }

    /// Number of receive buffers.
    pub fn num_rx(&self) -> (r: usize)
        ensures
            r == self.rx_states().len(),
    {
        self.rx_states.len()
    }

    /// Number of transmit buffers.
    pub fn num_tx(&self) -> (r: usize)
        ensures
            r == self.tx_states().len(),
    {
        self.tx_states.len()
    }

    /// Number of bounce spans leased out.
    pub fn num_leased(&self) -> (r: usize)
        requires
            self.wf(),
        ensures
            r == self.leased().len(),
    {
        self.ledger.num_leased()
    }

    /// The state of receive buffer `i`.
    pub fn rx_state(&self, i: usize) -> (r: RxState)
        requires
            i < self.rx_states().len(),
        ensures
            r == self.rx_states()[i as int],
    {
        self.rx_states[i]
    }

    /// The state of transmit buffer `j`.
    pub fn tx_state(&self, j: usize) -> (r: TxState)
        requires
            j < self.tx_states().len(),
        ensures
            r == self.tx_states()[j as int],
    {
        self.tx_states[j]
    }

    fn find_free_tx(&self) -> (r: Option<usize>)
        ensures
            r is None <==> !has_free(self.tx_states()),
            r matches Some(j) ==> is_first_free(self.tx_states(), j as int),
    {
        let mut j: usize = 0;
        while j < self.tx_states.len()
            invariant
                j <= self.tx_states@.len(),
                forall|k: int| 0 <= k < j ==> !(#[trigger] self.tx_states@[k] is Free),
            decreases self.tx_states@.len() - j,
        {
            if let TxState::Free = self.tx_states[j] {
                return Some(j);
            }
            j = j + 1;
        }
        None
    }

    /// Claims the lowest free transmit buffer and leases a bounce span of
    /// the buffer size for it. `Ok(None)` when no transmit buffer is free.
    pub fn transmit(&mut self) -> (r: Result<Option<usize>, Error>)
        requires
            old(self).wf(),
        ensures
            final(self).wf(),
            final(self).same_layout(old(self)),
            final(self).rx_states() == old(self).rx_states(),
            final(self).scratch() == old(self).scratch(),
            r == Ok::<Option<usize>, Error>(None) <==> !has_free(old(self).tx_states()),
            r is Err <==> has_free(old(self).tx_states())
                && !exists|o: int| #[trigger] fits_at(old(self).leased(), old(self).scratch().len(), o, old(self).buffer_size() as usize),
            r is Err ==> r == Err::<Option<usize>, Error>(Error::BounceBufferExhausted),
            !(r matches Ok(Some(_))) ==> final(self).tx_states() == old(self).tx_states() && final(self).leased() == old(self).leased(),
            r matches Ok(Some(j)) ==> {
                &&& is_first_free(old(self).tx_states(), j as int)
                &&& final(self).tx_states()[j as int] is Claimed
                &&& {
                    let s = final(self).tx_states()[j as int]->Claimed_0;
                    &&& final(self).tx_states() == old(self).tx_states().update(j as int, TxState::Claimed(s))
                    &&& s.len == old(self).buffer_size()
                    &&& fits(old(self).leased(), old(self).scratch().len(), s)
                    &&& final(self).leased() == old(self).leased().insert(s)
                }
            },
    {
        let j = match self.find_free_tx() {
            None => return Ok(None),
            Some(j) => j,
        };
        let bs = self.buffer_size;
        let ghost old_h = self.holdings();
        assert(self.tx_states@[j as int] is Free);
        assert(has_free(old(self).tx_states()));
        match self.ledger.lease(bs) {
            Err(_) => {
                assert(old(self).buffer_size() as usize == bs);
                assert(old(self).ledger.size() == old(self).scratch().len());
                assert(!exists|o: int| #[trigger] fits_at(old(self).leased(), old(self).scratch().len(), o, bs));
                Err(Error::BounceBufferExhausted)
            },
            Ok(s) => {
                self.tx_states.set(j, TxState::Claimed(s));
                proof {
                    assert(old(self).buffer_size() as usize == bs);
                    assert(fits_at(old(self).leased(), old(self).scratch().len(), s.offset as int, old(self).buffer_size() as usize));
                    let k = old(self).rx_states@.len() + j;
                    assert(old_h[k] == tx_span(old(self).tx_states@[j as int]));
                    lemma_holdings_acquire(old_h, old(self).ledger@, self.bounce@.len(), k, s);
                    assert(self.holdings() =~= old_h.update(k, Some(s)));
                }
                Ok(Some(j))
            },
        }
    }

    /// Gives up transmit buffer `j` if it is still claimed: its span goes
    /// back to the ledger and the buffer is free again, and the peer hears
    /// nothing. Otherwise nothing happens.
    pub fn drop_tx(&mut self, j: usize)
        requires
            old(self).wf(),
            j < old(self).tx_states().len(),
        ensures
            final(self).wf(),
            final(self).same_layout(old(self)),
            final(self).rx_states() == old(self).rx_states(),
            final(self).scratch() == old(self).scratch(),
            old(self).tx_states()[j as int] matches TxState::Claimed(s) ==> {
                &&& final(self).tx_states() == old(self).tx_states().update(j as int, TxState::Free)
                &&& final(self).leased() == old(self).leased().remove(s)
            },
            !(old(self).tx_states()[j as int] is Claimed) ==> {
                &&& final(self).tx_states() == old(self).tx_states()
                &&& final(self).leased() == old(self).leased()
            },
    {
        if let TxState::Claimed(s) = self.tx_states[j] {
            self.release_tx(j, s, TxState::Free);
        }
    }

    /// Sets transmit buffer `j`, which holds `s`, to `next`, and returns `s`
    /// to the ledger.
    fn release_tx(&mut self, j: usize, s: Span, next: TxState)
        requires
            old(self).wf(),
            j < old(self).tx_states().len(),
            old(self).tx_states()[j as int] == TxState::Claimed(s),
            !(next is Claimed),
        ensures
            final(self).wf(),
            final(self).same_layout(old(self)),
            final(self).rx_states() == old(self).rx_states(),
            final(self).scratch() == old(self).scratch(),
            final(self).tx_states() == old(self).tx_states().update(j as int, next),
            final(self).leased() == old(self).leased().remove(s),
    {
        let ghost old_h = self.holdings();
        let ghost k = self.rx_states@.len() + j;
        proof {
            assert(old_h[k] == tx_span(old(self).tx_states@[j as int]));
            lemma_holdings_release(old_h, self.ledger@, self.bounce@.len(), k);
        }
        self.ledger.release(s);
        self.tx_states.set(j, next);
        proof {
            assert(self.holdings() =~= old_h.update(k, None));
            if s.len == 0 {
                assert(!old(self).ledger@.contains(s)) by {
                    if old(self).ledger@.contains(s) {
                        old(self).ledger.lemma_leased_nonempty(s);
                    }
                }
            }
        }
    }

    /// Copies `frame` through the bounce span of claimed transmit buffer
    /// `j` into the buffer's place in the region, and hands the buffer to
    /// the peer with the frame's length. A frame longer than a buffer is
    /// refused with `FrameTooLarge`, and then nothing changes.
    pub fn consume_tx(&mut self, t: &mut Transport, j: usize, frame: &Vec<u8>) -> (r: Result<(), Error>)
        requires
            old(self).wf(),
            j < old(self).tx_states().len(),
            old(self).tx_states()[j as int] is Claimed,
            old(t).region@.len() == old(self).region_len(),
        ensures
            final(self).wf(),
            final(self).same_layout(old(self)),
            final(self).rx_states() == old(self).rx_states(),
            r is Err <==> frame@.len() > old(self).buffer_size(),
            r is Err ==> {
                &&& r == Err::<(), Error>(Error::FrameTooLarge)
                &&& *final(self) == *old(self)
                &&& *final(t) == *old(t)
            },
            r is Ok ==> {
                let off = old(self).tx_offsets()[j as int];
                &&& final(self).tx_states() == old(self).tx_states().update(j as int, TxState::GivenToPeer)
                &&& final(self).leased() == old(self).leased().remove(old(self).tx_states()[j as int]->Claimed_0)
                &&& written(old(t).region@, final(t).region@, off as int, frame@, frame@.len() as int)
                &&& final(t).tx.to_peer@ == old(t).tx.to_peer@.push(Descriptor { index: j, offset: off, len: frame@.len() as usize })
                &&& final(t).tx.from_peer == old(t).tx.from_peer
                &&& final(t).rx == old(t).rx
            },
    {
        let len = frame.len();
        if len > self.buffer_size {
            return Err(Error::FrameTooLarge);
        }
        let s = match self.tx_states[j] {
            TxState::Claimed(s) => s,
            _ => {
                return Err(Error::FrameTooLarge);
            },
        };
        let off = self.tx_offsets[j];
        proof {
            assert(self.holdings()[self.rx_states@.len() + j] == tx_span(self.tx_states@[j as int]));
        }
        copy_bytes(&mut self.bounce, s.offset, frame, 0, len);
        copy_bytes(&mut t.region, off, &self.bounce, s.offset, len);
        proof {
            assert forall|k: int| 0 <= k < t.region@.len() implies #[trigger] t.region@[k] == if off <= k < off + len {
                frame@[k - off]
            } else {
                old(t).region@[k]
            } by {
                if off <= k < off + len {
                    assert(self.bounce@[s.offset + k - off] == frame@[0 + (s.offset + k - off) - s.offset]);
                }
            }
        }
        t.tx.to_peer.push_back(Descriptor { index: j, offset: off, len });
        self.release_tx(j, s, TxState::GivenToPeer);
        Ok(())
    }

    /// What is wrong, if anything, with a receive entry `e` from the peer.
    pub open spec fn rx_entry_error(&self, e: Descriptor) -> Option<PeerMisbehaviorError> {
        if e.index >= self.rx_states().len() {
            Some(PeerMisbehaviorError::OutOfBoundsIndex)
        } else if !(self.rx_states()[e.index as int] is WithPeer) {
            Some(PeerMisbehaviorError::StateMismatch)
        } else if e.offset != self.rx_offsets()[e.index as int] {
            Some(PeerMisbehaviorError::DescriptorMismatch)
        } else if e.len > self.buffer_size() {
            Some(PeerMisbehaviorError::OutOfBoundsLength)
        } else {
            None
        }
    }

    fn check_rx(&self, e: Descriptor) -> (r: Result<(), PeerMisbehaviorError>)
        requires
            self.wf(),
        ensures
            r is Ok <==> self.rx_entry_error(e) is None,
            r matches Err(err) ==> self.rx_entry_error(e) == Some(err),
    {
        if e.index >= self.rx_states.len() {
            Err(PeerMisbehaviorError::OutOfBoundsIndex)
        } else if !matches!(self.rx_states[e.index], RxState::WithPeer) {
            Err(PeerMisbehaviorError::StateMismatch)
        } else if e.offset != self.rx_offsets[e.index] {
            Err(PeerMisbehaviorError::DescriptorMismatch)
        } else if e.len > self.buffer_size {
            Err(PeerMisbehaviorError::OutOfBoundsLength)
        } else {
            Ok(())
        }
    }

    /// Takes the next frame that the peer filled, together with the lowest
    /// free transmit buffer for a reply. The frame is checked, then copied
    /// out of the region into a fresh bounce span. `Ok(None)` when no frame
    /// waits or no transmit buffer is free; a wrong entry is taken off the
    /// queue and reported, and changes nothing else.
    pub fn receive(&mut self, t: &mut Transport) -> (r: Result<Option<(usize, usize)>, Error>)
        requires
            old(self).wf(),
            old(t).region@.len() == old(self).region_len(),
        ensures
            final(self).wf(),
            final(self).same_layout(old(self)),
            final(t).region == old(t).region,
            final(t).tx == old(t).tx,
            final(t).rx.to_peer == old(t).rx.to_peer,
            ({
                let q = old(t).rx.from_peer@;
                &&& r == Ok::<Option<(usize, usize)>, Error>(None) <==> q.len() == 0 || !has_free(old(self).tx_states())
                &&& r == Ok::<Option<(usize, usize)>, Error>(None) ==> *final(self) == *old(self) && *final(t) == *old(t)
                &&& r is Err ==> {
                    &&& q.len() > 0
                    &&& has_free(old(self).tx_states())
                    &&& final(self).rx_states() == old(self).rx_states()
                    &&& final(self).tx_states() == old(self).tx_states()
                    &&& final(self).leased() == old(self).leased()
                    &&& final(self).scratch() == old(self).scratch()
                }
                &&& q.len() > 0 && has_free(old(self).tx_states()) ==> {
                    &&& old(self).rx_entry_error(q[0]) is Some <==> (r is Err && r->Err_0 is PeerMisbehavior)
                    &&& old(self).rx_entry_error(q[0]) is Some ==> r == Err::<Option<(usize, usize)>, Error>(
                        Error::PeerMisbehavior(old(self).rx_entry_error(q[0])->0),
                    )
                    &&& old(self).rx_entry_error(q[0]) is Some ==> final(t).rx.from_peer@ == q.drop_first()
                    &&& old(self).rx_entry_error(q[0]) is None && r is Err ==> {
                        &&& r == Err::<Option<(usize, usize)>, Error>(Error::BounceBufferExhausted)
                        &&& final(t).rx.from_peer == old(t).rx.from_peer
                        &&& q[0].len + old(self).buffer_size() <= old(self).scratch().len() ==> !exists|o: int| #[trigger] fits_at(
                            old(self).leased(),
                            old(self).scratch().len(),
                            o,
                            (q[0].len + old(self).buffer_size()) as usize,
                        )
                    }
                }
                &&& r matches Ok(Some((i, j))) ==> {
                    &&& q.len() > 0
                    &&& i == q[0].index
                    &&& old(self).rx_entry_error(q[0]) is None
                    &&& is_first_free(old(self).tx_states(), j as int)
                    &&& final(t).rx.from_peer@ == q.drop_first()
                    &&& final(self).rx_states()[i as int] is Lent
                    &&& final(self).tx_states()[j as int] is Claimed
                    &&& {
                        let rs = final(self).rx_states()[i as int]->Lent_0;
                        let ts = final(self).tx_states()[j as int]->Claimed_0;
                        &&& rs.len == q[0].len
                        &&& ts.len == old(self).buffer_size()
                        &&& final(self).rx_states() == old(self).rx_states().update(i as int, RxState::Lent(rs))
                        &&& final(self).tx_states() == old(self).tx_states().update(j as int, TxState::Claimed(ts))
                        &&& fits(old(self).leased(), old(self).scratch().len(), rs)
                        &&& fits(with_span(old(self).leased(), rs), old(self).scratch().len(), ts)
                        &&& final(self).leased() == with_span(with_span(old(self).leased(), rs), ts)
                        &&& written(old(self).scratch(), final(self).scratch(), rs.offset as int,
                            old(t).region@.subrange(q[0].offset as int, q[0].offset + q[0].len), rs.len as int)
                    }
                }
            }),
    {
        if t.rx.from_peer.len() == 0 {
            return Ok(None);
        }
        let j = match self.find_free_tx() {
            None => return Ok(None),
            Some(j) => j,
        };
        assert(self.tx_states@[j as int] is Free);
        let e = t.rx.from_peer[0];
        if let Err(err) = self.check_rx(e) {
            t.rx.from_peer.pop_front();
            return Err(Error::PeerMisbehavior(err));
        }
        let i = e.index;
        let ghost h0 = self.holdings();
        let ghost l0 = self.ledger@;
        let ghost size = self.bounce@.len();
        let bs = self.buffer_size;
        let blen = self.bounce.len();
        let ghost n = e.len + bs;
        let rs = match self.ledger.lease(e.len) {
            Err(_) => {
                proof {
                    if n <= size {
                        assert forall|o: int| !#[trigger] fits_at(l0, size, o, n as usize) by {
                            if fits_at(l0, size, o, n as usize) {
                                crate::ledger::lemma_fits_within(l0, size, o, n as usize, o, e.len);
                            }
                        }
                    }
                }
                return Err(Error::BounceBufferExhausted);
            },
            Ok(s) => s,
        };
        let ts = match self.ledger.lease(bs) {
            Err(_) => {
                proof {
                    let l1 = with_span(l0, rs);
                    assert(self.ledger@ == l1);
                    if n <= size {
                        assert forall|o: int| !#[trigger] fits_at(l0, size, o, n as usize) by {
                            if fits_at(l0, size, o, n as usize) {
                                crate::ledger::lemma_fits_within(l0, size, o, n as usize, o, e.len);
                                assert(o >= rs.offset);
                                crate::ledger::lemma_fits_within(l0, size, o, n as usize, o + e.len, bs);
                                let p = o + e.len;
                                assert forall|x: Span| #[trigger] l1.contains(x) implies !crate::ledger::overlaps(x, Span { offset: p as usize, len: bs }) by {
                                    if x != rs {
                                        assert(l0.contains(x));
                                    }
                                }
                                assert(fits_at(l1, size, p, bs));
                            }
                        }
                    }
                }
                self.ledger.release(rs);
                proof {
                    assert(!l0.contains(rs)) by {
                        if l0.contains(rs) {
                            old(self).ledger.lemma_leased_nonempty(rs);
                            assert(!crate::ledger::overlaps(rs, rs));
                        }
                    }
                    assert(self.ledger@ =~= l0);
                }
                return Err(Error::BounceBufferExhausted);
            },
            Ok(s) => s,
        };
        let ghost l1 = with_span(l0, rs);
        t.rx.from_peer.pop_front();
        let ghost b0 = self.bounce@;
        copy_bytes(&mut self.bounce, rs.offset, &t.region, e.offset, e.len);
        self.rx_states.set(i, RxState::Lent(rs));
        self.tx_states.set(j, TxState::Claimed(ts));
        proof {
            let k = self.rx_states@.len() + j;
            assert(h0[i as int] == rx_span(old(self).rx_states@[i as int]));
            lemma_holdings_acquire(h0, l0, size, i as int, rs);
            let h1 = h0.update(i as int, Some(rs));
            assert(h1[k] == h0[k]);
            assert(h0[k] == tx_span(old(self).tx_states@[j as int]));
            lemma_holdings_acquire(h1, l1, size, k, ts);
            assert(self.holdings() =~= h1.update(k, Some(ts)));
            assert(self.ledger@ == with_span(l1, ts));
            let data = old(t).region@.subrange(e.offset as int, e.offset + e.len);
            assert forall|k: int| 0 <= k < self.bounce@.len() implies #[trigger] self.bounce@[k] == if rs.offset <= k < rs.offset + rs.len {
                data[k - rs.offset]
            } else {
                b0[k]
            } by {}
        }
        Ok(Some((i, j)))
    }

    /// A copy of the frame that receive buffer `i` holds in its bounce span.
    pub fn rx_frame(&self, i: usize) -> (r: Vec<u8>)
        requires
            self.wf(),
            i < self.rx_states().len(),
            self.rx_states()[i as int] is Lent,
        ensures
            ({
                let s = self.rx_states()[i as int]->Lent_0;
                r@ == self.scratch().subrange(s.offset as int, s.offset + s.len)
            }),
    {
        let s = match self.rx_states[i] {
            RxState::Lent(s) => s,
            RxState::WithPeer => {
                return Vec::new();
            },
        };
        proof {
            assert(self.holdings()[i as int] == rx_span(self.rx_states@[i as int]));
        }
        let n = self.bounce.len();
        let mut v: Vec<u8> = Vec::new();
        let mut k: usize = 0;
        while k < s.len
            invariant
                k <= s.len,
                n == self.bounce@.len(),
                s.offset + s.len <= self.bounce@.len(),
                v@ == self.bounce@.subrange(s.offset as int, s.offset + k),
            decreases s.len - k,
        {
            v.push(self.bounce[s.offset + k]);
            k = k + 1;
            assert(v@ =~= self.bounce@.subrange(s.offset as int, s.offset + k));
        }
        v
    }

    /// Hands receive buffer `i`, lent to the stack, back to the peer to be
    /// filled again, and returns its bounce span to the ledger.
    pub fn consume_rx_finish(&mut self, t: &mut Transport, i: usize)
        requires
            old(self).wf(),
            i < old(self).rx_states().len(),
            old(self).rx_states()[i as int] is Lent,
        ensures
            final(self).wf(),
            final(self).same_layout(old(self)),
            final(self).tx_states() == old(self).tx_states(),
            final(self).scratch() == old(self).scratch(),
            final(self).rx_states() == old(self).rx_states().update(i as int, RxState::WithPeer),
            final(self).leased() == old(self).leased().remove(old(self).rx_states()[i as int]->Lent_0),
            final(t).rx.to_peer@ == old(t).rx.to_peer@.push(Descriptor {
                index: i,
                offset: old(self).rx_offsets()[i as int],
                len: old(self).buffer_size() as usize,
            }),
            final(t).rx.from_peer == old(t).rx.from_peer,
            final(t).tx == old(t).tx,
            final(t).region == old(t).region,
    {
        let s = match self.rx_states[i] {
            RxState::Lent(s) => s,
            RxState::WithPeer => {
                return;
            },
        };
        let ghost h0 = self.holdings();
        proof {
            assert(h0[i as int] == rx_span(old(self).rx_states@[i as int]));
            lemma_holdings_release(h0, self.ledger@, self.bounce@.len(), i as int);
        }
        self.ledger.release(s);
        self.rx_states.set(i, RxState::WithPeer);
        proof {
            assert(self.holdings() =~= h0.update(i as int, None));
            if s.len == 0 {
                assert(!old(self).ledger@.contains(s)) by {
                    if old(self).ledger@.contains(s) {
                        old(self).ledger.lemma_leased_nonempty(s);
                    }
                }
            }
        }
        t.rx.to_peer.push_back(Descriptor { index: i, offset: self.rx_offsets[i], len: self.buffer_size });
    }

    /// Releases receive buffer `i` if it is still lent, as if its frame had
    /// never been read; otherwise nothing happens.
    pub fn drop_rx(&mut self, t: &mut Transport, i: usize)
        requires
            old(self).wf(),
            i < old(self).rx_states().len(),
        ensures
            final(self).wf(),
            final(self).same_layout(old(self)),
            final(self).tx_states() == old(self).tx_states(),
            final(self).scratch() == old(self).scratch(),
            final(t).rx.from_peer == old(t).rx.from_peer,
            final(t).tx == old(t).tx,
            final(t).region == old(t).region,
            old(self).rx_states()[i as int] matches RxState::Lent(s) ==> {
                &&& final(self).rx_states() == old(self).rx_states().update(i as int, RxState::WithPeer)
                &&& final(self).leased() == old(self).leased().remove(s)
                &&& final(t).rx.to_peer@ == old(t).rx.to_peer@.push(Descriptor {
                    index: i,
                    offset: old(self).rx_offsets()[i as int],
                    len: old(self).buffer_size() as usize,
                })
            },
            old(self).rx_states()[i as int] is WithPeer ==> *final(self) == *old(self) && *final(t) == *old(t),
    {
        if let RxState::Lent(_) = self.rx_states[i] {
            self.consume_rx_finish(t, i);
        }
    }

    /// Takes back the transmit buffers that the peer returned, in order,
    /// making each free again. Stops at the first wrong entry, which is
    /// taken off the queue and reported; the entries before it are taken
    /// back and those after it stay queued. On success, tells whether a
    /// buffer came back.
    pub fn poll(&mut self, t: &mut Transport) -> (r: Result<bool, Error>)
        requires
            old(self).wf(),
        ensures
            final(self).wf(),
            final(self).same_layout(old(self)),
            final(self).rx_states() == old(self).rx_states(),
            final(self).leased() == old(self).leased(),
            final(self).scratch() == old(self).scratch(),
            final(t).region == old(t).region,
            final(t).rx == old(t).rx,
            final(t).tx.to_peer == old(t).tx.to_peer,
            ({
                let q = old(t).tx.from_peer@;
                let res = tx_returns(old(self).tx_states(), old(self).tx_offsets(), old(self).buffer_size(), q);
                &&& final(self).tx_states() == res.0
                &&& final(t).tx.from_peer@ == q.skip(res.2 as int)
                &&& r is Ok <==> res.1 is None
                &&& r matches Ok(b) ==> final(t).tx.from_peer@.len() == 0 && b == (q.len() > 0)
                &&& r matches Err(e) ==> e == Error::PeerMisbehavior(res.1->0)
            }),
    {
        let ghost q0 = t.tx.from_peer@;
        let ghost res0 = tx_returns(self.tx_states@, self.tx_offsets@, self.buffer_size as nat, q0);
        let ghost mut k: int = 0;
        let mut changed = false;
        while t.tx.from_peer.len() > 0
            invariant
                self.wf(),
                self.same_layout(old(self)),
                self.rx_states() == old(self).rx_states(),
                self.leased() == old(self).leased(),
                self.scratch() == old(self).scratch(),
                t.region == old(t).region,
                t.rx == old(t).rx,
                t.tx.to_peer == old(t).tx.to_peer,
                q0 == old(t).tx.from_peer@,
                res0 == tx_returns(old(self).tx_states(), old(self).tx_offsets(), old(self).buffer_size(), q0),
                0 <= k <= q0.len(),
                t.tx.from_peer@ == q0.skip(k),
                changed == (k > 0),
                ({
                    let cur = tx_returns(self.tx_states@, self.tx_offsets@, self.buffer_size as nat, t.tx.from_peer@);
                    res0 == (cur.0, cur.1, cur.2 + k as nat)
                }),
            decreases t.tx.from_peer@.len(),
        {
            let ghost q = t.tx.from_peer@;
            let e = t.tx.from_peer[0];
            t.tx.from_peer.pop_front();
            proof {
                assert(q[0] == e);
                assert(q.drop_first() =~= t.tx.from_peer@);
                assert(q0.skip(k + 1) =~= t.tx.from_peer@);
                k = k + 1;
            }
            if e.index >= self.tx_states.len() {
                return Err(Error::PeerMisbehavior(PeerMisbehaviorError::OutOfBoundsIndex));
            }
            if !matches!(self.tx_states[e.index], TxState::GivenToPeer) {
                return Err(Error::PeerMisbehavior(PeerMisbehaviorError::StateMismatch));
            }
            if e.offset != self.tx_offsets[e.index] {
                return Err(Error::PeerMisbehavior(PeerMisbehaviorError::DescriptorMismatch));
            }
            if e.len > self.buffer_size {
                return Err(Error::PeerMisbehavior(PeerMisbehaviorError::OutOfBoundsLength));
            }
            let ghost h0 = self.holdings();
            self.tx_states.set(e.index, TxState::Free);
            changed = true;
            proof {
                assert(self.holdings() =~= h0);
            }
        }
        assert(t.tx.from_peer@.len() == 0);
        Ok(changed)
    }
}

} // verus!
