//! The central pool of spans, shared by all caches.

use crate::managed_heap::{HeapState, ManagedHeap, SpanId};
use crate::mspan::MSpanSizeClass;
use vstd::prelude::*;

verus! {

/// The pool's spans of one size class.
pub struct SizeClassBin {
    /// Spans with free blocks.
    pub partial: Vec<SpanId>,
    /// Full spans, held for the collector.
    pub full: Vec<SpanId>,
}

impl SizeClassBin {
    fn empty() -> (bin: Self)
        ensures
            bin.partial@ == Seq::<SpanId>::empty(),
            bin.full@ == Seq::<SpanId>::empty(),
    {
        SizeClassBin { partial: Vec::new(), full: Vec::new() }
    }
}

/// The pool: one bin for every size class.
pub struct MCentral {
    /// The bins, at the positions of their classes.
    pub bins: [SizeClassBin; MSpanSizeClass::COUNT],
}

/// What a pool holds, bin by bin.
#[verifier::ext_equal]
pub struct CentralState {
    /// The spans with free blocks.
    pub partial: Seq<Seq<SpanId>>,
    /// The full spans.
    pub full: Seq<Seq<SpanId>>,
}

impl CentralState {
    /// The pool without spans.
    pub open spec fn empty() -> CentralState {
        CentralState {
            partial: Seq::new(MSpanSizeClass::COUNT as nat, |i: int| Seq::empty()),
            full: Seq::new(MSpanSizeClass::COUNT as nat, |i: int| Seq::empty()),
        }
    }

    /// The span that a request for the given class gets: the latest one with free blocks.
    pub open spec fn top(self, size_class: MSpanSizeClass) -> Option<SpanId> {
        let partial = self.partial[size_class.to_index() as int];
        if partial.len() > 0 {
            Some(partial.last())
        } else {
            None
        }
    }

    /// The pool after a request for the given class.
    pub open spec fn popped(self, size_class: MSpanSizeClass) -> CentralState {
        let i = size_class.to_index() as int;
        if self.partial[i].len() > 0 {
            CentralState { partial: self.partial.update(i, self.partial[i].drop_last()), ..self }
        } else {
            self
        }
    }

    /// The pool with one more full span.
    pub open spec fn with_full(self, size_class: MSpanSizeClass, s: SpanId) -> CentralState {
        let i = size_class.to_index() as int;
        CentralState { full: self.full.update(i, self.full[i].push(s)), ..self }
    }

    /// The pool with one more span that has free blocks.
    pub open spec fn with_partial(self, size_class: MSpanSizeClass, s: SpanId) -> CentralState {
        let i = size_class.to_index() as int;
        CentralState { partial: self.partial.update(i, self.partial[i].push(s)), ..self }
    }

    /// The pool after the spans that are not full any more have moved, in order, to the spans with
    /// free blocks.
    pub open spec fn resorted(self, heap: HeapState) -> CentralState {
        CentralState {
            partial: Seq::new(
                self.partial.len(),
                |i: int|
                    self.partial[i] + self.full[i].filter(|s: SpanId| !heap.span(s).full()),
            ),
            full: Seq::new(
                self.full.len(),
                |i: int| self.full[i].filter(|s: SpanId| heap.span(s).full()),
            ),
        }
    }

    /// Whether every full span of the pool is a span of the heap.
    pub open spec fn full_in_heap(self, heap: HeapState) -> bool {
        forall|i: int, j: int|
            0 <= i < MSpanSizeClass::COUNT && 0 <= j < self.full[i].len()
                ==> (#[trigger] self.full[i][j]).0 < heap.spans.len()
    }
}

impl View for MCentral {
    type V = CentralState;

    open spec fn view(&self) -> CentralState {
        CentralState {
            partial: Seq::new(
                MSpanSizeClass::COUNT as nat,
                |i: int| self.bins@[i].partial@,
            ),
            full: Seq::new(MSpanSizeClass::COUNT as nat, |i: int| self.bins@[i].full@),
        }
    }
}

impl MCentral {
    /// A pool without spans.
    pub fn new() -> (central: Self)
        ensures
            central@ == CentralState::empty(),
    {
        let central = MCentral {
            bins: [
                SizeClassBin::empty(),
                SizeClassBin::empty(),
                SizeClassBin::empty(),
                SizeClassBin::empty(),
                SizeClassBin::empty(),
            ],
        };
        proof {
            assert(central@.partial =~~= CentralState::empty().partial);
            assert(central@.full =~~= CentralState::empty().full);
        }
        central
    }

    /// Takes a span with free blocks of the given class out of the pool, if there is one.
    pub fn pop_span(&mut self, size_class: MSpanSizeClass) -> (r: Option<SpanId>)
        ensures
            r == old(self)@.top(size_class),
            final(self)@ == old(self)@.popped(size_class),
    {
        let idx: usize = size_class.to_index();
        let r = self.bins[idx].partial.pop();
        proof {
            assert(self@.partial =~~= old(self)@.popped(size_class).partial);
            assert(self@.full =~~= old(self)@.popped(size_class).full);
        }
        r
    }

    /// Puts a span into the bin of the given class: among the full spans if it is full, among the
    /// spans with free blocks otherwise.
    pub fn push_span(&mut self, size_class: MSpanSizeClass, span: SpanId, heap: &ManagedHeap)
        requires
            span.0 < heap@.spans.len(),
        ensures
            final(self)@ == if heap@.span(span).full() {
                old(self)@.with_full(size_class, span)
            } else {
                old(self)@.with_partial(size_class, span)
            },
    {
        let idx: usize = size_class.to_index();
        if heap.span(span).is_full() {
            self.bins[idx].full.push(span);
            proof {
                assert(self@.partial =~~= old(self)@.partial);
                assert(self@.full =~~= old(self)@.with_full(size_class, span).full);
            }
        } else {
            self.bins[idx].partial.push(span);
            proof {
                assert(self@.partial =~~= old(self)@.with_partial(size_class, span).partial);
                assert(self@.full =~~= old(self)@.full);
            }
        }
    }

    /// Moves the spans that are not full any more from the full spans to the spans with free blocks.
    pub fn sweep_full_spans(&mut self, heap: &ManagedHeap)
        requires
            old(self)@.full_in_heap(heap@),
        ensures
            final(self)@ == old(self)@.resorted(heap@),
    {
        let mut i: usize = 0;
        while i < MSpanSizeClass::COUNT
            invariant
                i <= MSpanSizeClass::COUNT,
                old(self)@.full_in_heap(heap@),
                forall|b: int|
                    #![trigger self.bins@[b]]
                    0 <= b < i ==> self.bins@[b].partial@ == old(self)@.resorted(heap@).partial[b]
                        && self.bins@[b].full@ == old(self)@.resorted(heap@).full[b],
                forall|b: int|
                    i <= b < MSpanSizeClass::COUNT ==> #[trigger] self.bins@[b] == old(
                        self,
                    ).bins@[b],
            decreases MSpanSizeClass::COUNT - i,
        {
            proof {
                assert(self.bins@[i as int] == old(self).bins@[i as int]);
                assert forall|j: int| 0 <= j < self.bins@[i as int].full@.len() implies (
                #[trigger] self.bins@[i as int].full@[j]).0 < heap@.spans.len() by {
                    assert(old(self)@.full[i as int][j].0 < heap@.spans.len());
                }
            }
            self.sweep_bin(i, heap);
            i = i + 1;
        }
        proof {
            assert(self@.partial =~~= old(self)@.resorted(heap@).partial);
            assert(self@.full =~~= old(self)@.resorted(heap@).full);
        }
    }

    fn sweep_bin(&mut self, idx: usize, heap: &ManagedHeap)
        requires
            idx < MSpanSizeClass::COUNT,
            forall|j: int|
                0 <= j < old(self).bins@[idx as int].full@.len() ==> (#[trigger] old(
                    self,
                ).bins@[idx as int].full@[j]).0 < heap@.spans.len(),
        ensures
            final(self).bins@[idx as int].partial@ == old(self).bins@[idx as int].partial@ + old(
                self,
            ).bins@[idx as int].full@.filter(|s: SpanId| !heap@.span(s).full()),
            final(self).bins@[idx as int].full@ == old(self).bins@[idx as int].full@.filter(
                |s: SpanId| heap@.span(s).full(),
            ),
            forall|b: int|
                0 <= b < MSpanSizeClass::COUNT && b != idx ==> #[trigger] final(self).bins@[b]
                    == old(self).bins@[b],
    {
        let mut kept: Vec<SpanId> = Vec::new();
        let mut i: usize = 0;
        let n: usize = self.bins[idx].full.len();
        let ghost spans = self.bins@[idx as int].full@;
        let ghost is_full = |s: SpanId| heap@.span(s).full();
        let ghost not_full = |s: SpanId| !heap@.span(s).full();
        proof {
            reveal(Seq::filter);
            assert(spans.take(0) =~= Seq::<SpanId>::empty());
            assert(self.bins@[idx as int].partial@ + Seq::<SpanId>::empty()
                =~= self.bins@[idx as int].partial@);
        }
        while i < n
            invariant
                i <= n,
                idx < MSpanSizeClass::COUNT,
                n == spans.len(),
                self.bins@[idx as int].full@ == spans,
                forall|j: int| 0 <= j < spans.len() ==> (#[trigger] spans[j]).0 < heap@.spans.len(),
                is_full == |s: SpanId| heap@.span(s).full(),
                not_full == |s: SpanId| !heap@.span(s).full(),
                kept@ == spans.take(i as int).filter(is_full),
                self.bins@[idx as int].partial@ == old(self).bins@[idx as int].partial@
                    + spans.take(i as int).filter(not_full),
                forall|b: int|
                    0 <= b < MSpanSizeClass::COUNT && b != idx ==> #[trigger] self.bins@[b] == old(
                        self,
                    ).bins@[b],
            decreases n - i,
        {
            let span = self.bins[idx].full[i];
            proof {
                reveal(Seq::filter);
                assert(spans.take(i + 1).drop_last() =~= spans.take(i as int));
                assert(spans.take(i + 1).last() == span);
            }
            if !heap.span(span).is_full() {
                self.bins[idx].partial.push(span);
            } else {
                kept.push(span);
            }
            i = i + 1;
        }
        proof {
            assert(spans.take(n as int) =~= spans);
        }
        self.bins[idx].full = kept;
    }
}

} // verus!
