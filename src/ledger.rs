use vstd::prelude::*;

verus! {

/// A contiguous range of the bounce region: `len` bytes from `offset`.
#[derive(Copy, Clone, Debug, PartialEq, Eq, Structural)]
pub struct Span {
    pub offset: usize,
    pub len: usize,
}

/// The ledger has no free range of the length that was asked for.
#[derive(Copy, Clone, Debug, PartialEq, Eq, Structural)]
pub struct Exhausted;

pub open spec fn span_end(s: Span) -> int {
    s.offset + s.len
}

/// Two spans share at least one byte.
pub open spec fn overlaps(a: Span, b: Span) -> bool {
    a.offset < span_end(b) && b.offset < span_end(a)
}

/// `s` lies inside a region of `size` bytes and shares no byte with a span of `leased`.
pub open spec fn fits(leased: Set<Span>, size: nat, s: Span) -> bool {
    span_end(s) <= size && forall|x: Span| #[trigger] leased.contains(x) ==> !overlaps(x, s)
}

/// A span of `len` bytes from offset `o` fits beside `leased`.
pub open spec fn fits_at(leased: Set<Span>, size: nat, o: int, len: usize) -> bool {
    0 <= o && o + len <= size && fits(leased, size, Span { offset: o as usize, len })
}

/// A part of a free range is free.
pub proof fn lemma_fits_within(leased: Set<Span>, size: nat, o: int, n: usize, a: int, m: usize)
    requires
        fits_at(leased, size, o, n),
        size <= usize::MAX,
        o <= a,
        a + m <= o + n,
    ensures
        fits_at(leased, size, a, m),
{
    assert forall|x: Span| #[trigger] leased.contains(x) implies !overlaps(x, Span { offset: a as usize, len: m }) by {
        assert(!overlaps(x, Span { offset: o as usize, len: n }));
        assert(a as usize == a && o as usize == o);
    }
}

/// Spans in increasing order of offset, each ending before the next begins, none empty.
pub open spec fn sorted_disjoint(s: Seq<Span>) -> bool {
    &&& forall|i: int, j: int| 0 <= i < j < s.len() ==> span_end(#[trigger] s[i]) <= (#[trigger] s[j]).offset
    &&& forall|i: int| 0 <= i < s.len() ==> (#[trigger] s[i]).len > 0
}

proof fn lemma_insert_sorted(s: Seq<Span>, k: int, x: Span)
    requires
        sorted_disjoint(s),
        0 <= k <= s.len(),
        x.len > 0,
        k > 0 ==> span_end(s[k - 1]) <= x.offset,
        k < s.len() ==> span_end(x) <= s[k].offset,
    ensures
        sorted_disjoint(s.insert(k, x)),
        s.insert(k, x).to_set() == s.to_set().insert(x),
{
    let t = s.insert(k, x);
    assert forall|i: int, j: int| 0 <= i < j < t.len() implies span_end(#[trigger] t[i]) <= (#[trigger] t[j]).offset by {
        if j < k {
        } else if j == k {
            if i < k - 1 {
                assert(span_end(s[i]) <= s[k - 1].offset);
            }
        } else if i < k {
            if i < k - 1 {
                assert(span_end(s[i]) <= s[k - 1].offset);
            }
            assert(span_end(s[k - 1]) <= x.offset);
            assert(x.offset <= span_end(x));
            assert(span_end(x) <= s[k].offset);
            if k < j - 1 {
                assert(span_end(s[k]) <= s[j - 1].offset);
            }
        } else if i == k {
            if k < j - 1 {
                assert(span_end(s[k]) <= s[j - 1].offset);
            }
        } else {
            assert(t[i] == s[i - 1] && t[j] == s[j - 1]);
        }
    }
    assert forall|i: int| 0 <= i < t.len() implies (#[trigger] t[i]).len > 0 by {
        if i < k {
        } else if i > k {
            assert(t[i] == s[i - 1]);
        }
    }
    assert forall|y: Span| #[trigger] t.to_set().contains(y) <==> s.to_set().insert(x).contains(y) by {
        if t.to_set().contains(y) {
            let i = choose|i: int| 0 <= i < t.len() && t[i] == y;
            if i < k {
                assert(s[i] == y);
            } else if i > k {
                assert(s[i - 1] == y);
            }
        }
        if s.to_set().contains(y) && y != x {
            let i = choose|i: int| 0 <= i < s.len() && s[i] == y;
            if i < k {
                assert(t[i] == y);
            } else {
                assert(t[i + 1] == y);
            }
        }
        if y == x {
            assert(t[k] == x);
        }
    }
    assert(t.to_set() =~= s.to_set().insert(x));
}

proof fn lemma_remove_sorted(s: Seq<Span>, k: int)
    requires
        sorted_disjoint(s),
        0 <= k < s.len(),
    ensures
        sorted_disjoint(s.remove(k)),
        s.remove(k).to_set() == s.to_set().remove(s[k]),
{
    let t = s.remove(k);
    assert forall|i: int, j: int| 0 <= i < j < t.len() implies span_end(#[trigger] t[i]) <= (#[trigger] t[j]).offset by {
        let a = if i < k { i } else { i + 1 };
        let b = if j < k { j } else { j + 1 };
        assert(t[i] == s[a] && t[j] == s[b]);
    }
    assert forall|i: int| 0 <= i < t.len() implies (#[trigger] t[i]).len > 0 by {
        let a = if i < k { i } else { i + 1 };
        assert(t[i] == s[a]);
    }
    assert forall|y: Span| #[trigger] t.to_set().contains(y) <==> s.to_set().remove(s[k]).contains(y) by {
        if t.to_set().contains(y) {
            let i = choose|i: int| 0 <= i < t.len() && t[i] == y;
            let a = if i < k { i } else { i + 1 };
            assert(s[a] == y);
            if a < k {
                assert(span_end(s[a]) <= s[k].offset);
            } else {
                assert(span_end(s[k]) <= s[a].offset);
            }
        }
        if s.to_set().contains(y) && y != s[k] {
            let i = choose|i: int| 0 <= i < s.len() && s[i] == y;
            if i < k {
                assert(t[i] == y);
            } else {
                assert(t[i - 1] == y);
            }
        }
    }
    assert(t.to_set() =~= s.to_set().remove(s[k]));
}

/// Record of the spans of a bounce region of fixed size that are leased out.
pub struct BounceLedger {
    size: usize,
    spans: Vec<Span>,
}

impl View for BounceLedger {
    type V = Set<Span>;

    closed spec fn view(&self) -> Set<Span> {
        self.spans@.to_set()
    }
}

impl BounceLedger {
    /// Size in bytes of the region that the spans are taken from.
    pub closed spec fn size(&self) -> nat {
        self.size as nat
    }

    pub closed spec fn wf(&self) -> bool {
        &&& sorted_disjoint(self.spans@)
        &&& forall|i: int| 0 <= i < self.spans@.len() ==> span_end(#[trigger] self.spans@[i]) <= self.size
    }

    /// A ledger over `size` bytes with nothing leased.
    pub fn new(size: usize) -> (r: Self)
        ensures
            r.wf(),
            r.size() == size,
            r@ == Set::<Span>::empty(),
    {
        let r = BounceLedger { size, spans: Vec::new() };
        assert(r.spans@.to_set() =~= Set::<Span>::empty());
        r
    }

    /// Size in bytes of the region.
    pub fn region_size(&self) -> (r: usize)
        ensures
            r == self.size(),
    {
        self.size
    }

    /// Number of spans leased out.
    pub fn num_leased(&self) -> (r: usize)
        requires
            self.wf(),
        ensures
            r == self@.len(),
    {
        proof {
            self.lemma_no_duplicates();
            self.spans@.unique_seq_to_set();
        }
        self.spans.len()
    }

    proof fn lemma_no_duplicates(&self)
        requires
            self.wf(),
        ensures
            self.spans@.no_duplicates(),
    {
        assert forall|i: int, j: int| 0 <= i < self.spans@.len() && 0 <= j < self.spans@.len() && i != j
            implies self.spans@[i] != self.spans@[j] by {
            if i < j {
                assert(span_end(self.spans@[i]) <= self.spans@[j].offset);
            } else {
                assert(span_end(self.spans@[j]) <= self.spans@[i].offset);
            }
        }
    }

    /// Every leased span is non-empty and lies inside the region.
    pub proof fn lemma_leased_nonempty(&self, a: Span)
        requires
            self.wf(),
            self@.contains(a),
        ensures
            a.len > 0,
            span_end(a) <= self.size(),
    {
        let i = choose|i: int| 0 <= i < self.spans@.len() && self.spans@[i] == a;
    }

    /// No two leased spans share a byte, and each lies inside the region.
    pub proof fn lemma_leased_disjoint(&self, a: Span, b: Span)
        requires
            self.wf(),
            self@.contains(a),
            self@.contains(b),
            a != b,
        ensures
            !overlaps(a, b),
            span_end(a) <= self.size(),
            a.len > 0,
    {
        let i = choose|i: int| 0 <= i < self.spans@.len() && self.spans@[i] == a;
        let j = choose|j: int| 0 <= j < self.spans@.len() && self.spans@[j] == b;
        if i < j {
            assert(span_end(self.spans@[i]) <= self.spans@[j].offset);
        } else if j < i {
            assert(span_end(self.spans@[j]) <= self.spans@[i].offset);
        }
    }

    /// Leases `len` bytes at the lowest offset where they fit. Fails with
    /// `Exhausted` exactly when no range of `len` bytes is free. An empty
    /// span is always granted and never recorded.
    pub fn lease(&mut self, len: usize) -> (r: Result<Span, Exhausted>)
        requires
            old(self).wf(),
        ensures
            final(self).wf(),
            final(self).size() == old(self).size(),
            r is Err <==> !exists|o: int| #[trigger] fits_at(old(self)@, old(self).size(), o, len),
            r is Err ==> final(self)@ == old(self)@,
            r matches Ok(s) ==> {
                &&& s.len == len
                &&& fits(old(self)@, old(self).size(), s)
                &&& forall|o: int| o < s.offset ==> !#[trigger] fits_at(old(self)@, old(self).size(), o, len)
                &&& final(self)@ == if len > 0 { old(self)@.insert(s) } else { old(self)@ }
            },
    {
        if len == 0 {
            let s = Span { offset: 0, len: 0 };
            assert(fits_at(self@, self.size(), 0, 0));
            return Ok(s);
        }
        let ghost spans0 = self.spans@;
        let mut cur: usize = 0;
        let mut i: usize = 0;
        while i < self.spans.len()
            invariant
                self.wf(),
                self.spans@ == spans0,
                self.size == old(self).size,
                spans0 == old(self).spans@,
                len > 0,
                i <= spans0.len(),
                cur <= self.size,
                i == 0 ==> cur == 0,
                i > 0 ==> cur == span_end(spans0[i - 1]),
                forall|o: int| o < cur ==> !#[trigger] fits_at(spans0.to_set(), self.size as nat, o, len),
            decreases spans0.len() - i,
        {
            let s = self.spans[i];
            if i > 0 {
                assert(span_end(spans0[i - 1]) <= spans0[i as int].offset);
            }
            if s.offset - cur >= len {
                let n = Span { offset: cur, len };
                proof {
                    assert forall|x: Span| #[trigger] spans0.to_set().contains(x) implies !overlaps(x, n) by {
                        let j = choose|j: int| 0 <= j < spans0.len() && spans0[j] == x;
                        if j < i {
                            if j < i - 1 {
                                assert(span_end(spans0[j]) <= spans0[i - 1].offset);
                            }
                        } else if j > i {
                            assert(span_end(spans0[i as int]) <= spans0[j].offset);
                        }
                    }
                    assert(fits_at(spans0.to_set(), self.size as nat, cur as int, len));
                    assert(old(self)@ == spans0.to_set());
                    assert(fits_at(old(self)@, old(self).size(), cur as int, len));
                    lemma_insert_sorted(spans0, i as int, n);
                }
                self.spans.insert(i, n);
                proof {
                    assert forall|j: int| 0 <= j < self.spans@.len() implies span_end(#[trigger] self.spans@[j]) <= self.size by {
                        if j > i {
                            assert(self.spans@[j] == spans0[j - 1]);
                        } else if j < i {
                            assert(self.spans@[j] == spans0[j]);
                        }
                    }
                }
                return Ok(n);
            }
            proof {
                assert forall|o: int| o < s.offset + s.len implies !#[trigger] fits_at(spans0.to_set(), self.size as nat, o, len) by {
                    if o >= cur {
                        assert(spans0.to_set().contains(spans0[i as int]));
                        assert(o >= 0 ==> overlaps(spans0[i as int], Span { offset: o as usize, len }));
                    }
                }
            }
            cur = s.offset + s.len;
            i = i + 1;
        }
        if self.size - cur >= len {
            let n = Span { offset: cur, len };
            proof {
                assert forall|x: Span| #[trigger] spans0.to_set().contains(x) implies !overlaps(x, n) by {
                    let j = choose|j: int| 0 <= j < spans0.len() && spans0[j] == x;
                    if j < spans0.len() - 1 {
                        assert(span_end(spans0[j]) <= spans0[spans0.len() - 1].offset);
                    }
                }
                assert(fits_at(spans0.to_set(), self.size as nat, cur as int, len));
                assert(fits_at(old(self)@, old(self).size(), cur as int, len));
                lemma_insert_sorted(spans0, i as int, n);
            }
            self.spans.insert(i, n);
            proof {
                assert forall|j: int| 0 <= j < self.spans@.len() implies span_end(#[trigger] self.spans@[j]) <= self.size by {
                    if j < i {
                        assert(self.spans@[j] == spans0[j]);
                    }
                }
            }
            Ok(n)
        } else {
            assert forall|o: int| !#[trigger] fits_at(spans0.to_set(), self.size as nat, o, len) by {
                if o < cur {
                    assert(!fits_at(spans0.to_set(), self.size as nat, o, len));
                }
            }
            Err(Exhausted)
        }
    }

    /// Returns a leased span to the region. An empty span was never recorded
    /// and is ignored.
    pub fn release(&mut self, s: Span)
        requires
            old(self).wf(),
            s.len == 0 || old(self)@.contains(s),
        ensures
            final(self).wf(),
            final(self).size() == old(self).size(),
            final(self)@ == old(self)@.remove(s),
    {
        if s.len == 0 {
            proof {
                if self@.contains(s) {
                    let j = choose|j: int| 0 <= j < self.spans@.len() && self.spans@[j] == s;
                    assert(self.spans@[j].len > 0);
                }
                assert(self@.remove(s) =~= self@);
            }
            return;
        }
        let ghost spans0 = self.spans@;
        let mut k: usize = 0;
        while k < self.spans.len() && self.spans[k] != s
            invariant
                self.spans@ == spans0,
                spans0.to_set().contains(s),
                k <= spans0.len(),
                forall|j: int| 0 <= j < k ==> spans0[j] != s,
            decreases spans0.len() - k,
        {
            k = k + 1;
        }
        if k == self.spans.len() {
            proof {
                let j = choose|j: int| 0 <= j < spans0.len() && spans0[j] == s;
                assert(spans0[j] != s);
            }
            return;
        }
        proof {
            lemma_remove_sorted(spans0, k as int);
        }
        self.spans.remove(k);
        proof {
            assert forall|j: int| 0 <= j < self.spans@.len() implies span_end(#[trigger] self.spans@[j]) <= self.size by {
                if j < k {
                    assert(self.spans@[j] == spans0[j]);
                } else {
                    assert(self.spans@[j] == spans0[j + 1]);
                }
            }
        }
    }
}

} // verus!
