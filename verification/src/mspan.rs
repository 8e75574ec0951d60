//! Memory spans.
//!
//! A span is a run of whole pages cut into blocks of one size. Every block holds at most one
//! object. Two bit masks of four words each track the blocks: `alloc_bits` says which blocks are
//! taken, `marked_bits` says which blocks the collector has found alive.

use crate::datastruct::{ObjectId, PAGE_SIZE};
use vstd::prelude::*;

verus! {

/// Whether bit `b` of `w` is set.
pub open spec fn bit_of(w: u64, b: int) -> bool {
    (w >> (b as u64)) & 1 == 1
}

/// Whether bit `k` is set in a mask made of 64-bit words, lowest word first.
pub open spec fn bit_at(words: Seq<u64>, k: int) -> bool {
    bit_of(words[k / 64], k % 64)
}

/// How many of the first `n` bits of a mask are set.
pub open spec fn bits_set(words: Seq<u64>, n: nat) -> nat
    decreases n,
{
    if n == 0 {
        0
    } else {
        bits_set(words, (n - 1) as nat) + if bit_at(words, n - 1) {
            1nat
        } else {
            0nat
        }
    }
}

proof fn lemma_bit_or(w: u64, p: u64, b: u64)
    requires
        p < 64,
        b < 64,
    ensures
        bit_of(w | (1u64 << p), b as int) == (bit_of(w, b as int) || b == p),
{
    assert((((w | (1u64 << p)) >> b) & 1 == 1) == ((w >> b) & 1 == 1 || b == p)) by (bit_vector)
        requires
            p < 64,
            b < 64,
    ;
}

proof fn lemma_bit_and(v: u64, w: u64, b: u64)
    requires
        b < 64,
    ensures
        bit_of(v & w, b as int) == (bit_of(v, b as int) && bit_of(w, b as int)),
{
    assert((((v & w) >> b) & 1 == 1) == ((v >> b) & 1 == 1 && (w >> b) & 1 == 1)) by (bit_vector)
        requires
            b < 64,
    ;
}

proof fn lemma_bit_zero(b: u64)
    requires
        b < 64,
    ensures
        !bit_of(0, b as int),
{
    assert((0u64 >> b) & 1 == 0) by (bit_vector)
        requires
            b < 64,
    ;
}

proof fn lemma_bit_test(w: u64, p: u64)
    requires
        p < 64,
    ensures
        (w & (1u64 << p) != 0) == bit_of(w, p as int),
{
    assert((w & (1u64 << p) != 0) == ((w >> p) & 1 == 1)) by (bit_vector)
        requires
            p < 64,
    ;
}

/// The lowest clear bit of a word, as the trailing zeros of its complement.
proof fn lemma_lowest_clear(w: u64)
    requires
        w != u64::MAX,
    ensures
        vstd::std_specs::bits::u64_trailing_zeros(!w) < 64,
        !bit_of(w, vstd::std_specs::bits::u64_trailing_zeros(!w) as int),
        forall|j: int|
            0 <= j < vstd::std_specs::bits::u64_trailing_zeros(!w) ==> #[trigger] bit_of(w, j),
{
    let f = !w;
    let tz = vstd::std_specs::bits::u64_trailing_zeros(f);
    assert(!w != 0) by (bit_vector)
        requires
            w != u64::MAX,
    ;
    vstd::std_specs::bits::axiom_u64_trailing_zeros(f);
    let t = tz as u64;
    assert((w >> t) & 1 == 0) by (bit_vector)
        requires
            (!w >> t) & 1 == 1,
            t < 64,
    ;
    assert forall|j: int| 0 <= j < tz implies #[trigger] bit_of(w, j) by {
        let u = j as u64;
        assert((f >> u) & 1 == 0);
        assert((w >> u) & 1 == 1) by (bit_vector)
            requires
                (!w >> u) & 1 == 0,
                u < 64,
        ;
    }
}

proof fn lemma_full_word(b: int)
    requires
        0 <= b < 64,
    ensures
        bit_of(u64::MAX, b),
{
    let u = b as u64;
    assert((0xffff_ffff_ffff_ffffu64 >> u) & 1 == 1) by (bit_vector)
        requires
            u < 64,
    ;
}

/// All of the first `n` bits are set exactly when `n` of them are.
pub proof fn lemma_bits_set_all(words: Seq<u64>, n: nat)
    ensures
        bits_set(words, n) <= n,
        bits_set(words, n) == n <==> forall|k: int| 0 <= k < n ==> bit_at(words, k),
    decreases n,
{
    if n > 0 {
        lemma_bits_set_all(words, (n - 1) as nat);
        if bits_set(words, n) == n {
            assert forall|k: int| 0 <= k < n implies bit_at(words, k) by {
                if k < n - 1 {
                    assert(bits_set(words, (n - 1) as nat) == n - 1);
                }
            }
        }
    }
}

/// Clear bits past `m` add nothing to the count.
pub proof fn lemma_bits_set_tail(words: Seq<u64>, m: nat, n: nat)
    requires
        m <= n,
        forall|k: int| m <= k < n ==> !bit_at(words, k),
    ensures
        bits_set(words, n) == bits_set(words, m),
    decreases n,
{
    if m < n {
        lemma_bits_set_tail(words, m, (n - 1) as nat);
    }
}

/// Size classes of blocks.
#[derive(Debug, Clone, Copy, PartialEq, Eq, Structural)]
pub enum MSpanSizeClass {
    B64,
    B128,
    B256,
    B512,
    B3072,
}

impl MSpanSizeClass {
    /// Number of size classes.
    pub const COUNT: usize = 5;

    /// Size of one block in bytes.
    pub open spec fn spec_block_size(&self) -> usize {
        match self {
            Self::B64 => 64,
            Self::B128 => 128,
            Self::B256 => 256,
            Self::B512 => 512,
            Self::B3072 => 3072,
        }
    }

    /// Number of pages that one span of the class takes.
    pub open spec fn spec_pages_per_span(&self) -> usize {
        match self {
            Self::B3072 => 3,
            _ => 1,
        }
    }

    /// Position of the class in tables indexed by class.
    pub open spec fn spec_to_index(&self) -> usize {
        match self {
            Self::B64 => 0,
            Self::B128 => 1,
            Self::B256 => 2,
            Self::B512 => 3,
            Self::B3072 => 4,
        }
    }

    /// Number of bytes that one span of the class takes.
    pub open spec fn span_bytes(self) -> int {
        self.spec_pages_per_span() * PAGE_SIZE
    }

    /// Number of blocks in one span of the class.
    pub open spec fn blocks_per_span(self) -> int {
        self.span_bytes() / (self.spec_block_size() as int)
    }

    /// Size of one block in bytes.
    #[verifier::when_used_as_spec(spec_block_size)]
    pub fn block_size(&self) -> (r: usize)
        ensures
            r == self.spec_block_size(),
    {
        match self {
            Self::B64 => 64,
            Self::B128 => 128,
            Self::B256 => 256,
            Self::B512 => 512,
            Self::B3072 => 3072,
        }
    }

    /// Number of pages that one span of the class takes. The largest class takes three pages, which
    /// four of its blocks fill exactly.
    #[verifier::when_used_as_spec(spec_pages_per_span)]
    pub fn pages_per_span(&self) -> (r: usize)
        ensures
            r == self.spec_pages_per_span(),
    {
        match self {
            Self::B64 | Self::B128 | Self::B256 | Self::B512 => 1,
            Self::B3072 => 3,
        }
    }

    /// Position of the class in tables indexed by class.
    #[verifier::when_used_as_spec(spec_to_index)]
    pub fn to_index(&self) -> (r: usize)
        ensures
            r == self.spec_to_index(),
    {
        match self {
            Self::B64 => 0,
            Self::B128 => 1,
            Self::B256 => 2,
            Self::B512 => 3,
            Self::B3072 => 4,
        }
    }
}

/// Different classes have different table positions, and every position is in range.
pub proof fn law_class_index(a: MSpanSizeClass, b: MSpanSizeClass)
    ensures
        a.to_index() < MSpanSizeClass::COUNT,
        a.to_index() == b.to_index() ==> a == b,
{
}

/// The blocks of a class fill its span without a gap, and the masks have a bit for each of them.
pub proof fn law_blocks_fill_span(c: MSpanSizeClass)
    ensures
        c.blocks_per_span() * c.block_size() == c.span_bytes(),
        1 <= c.blocks_per_span() <= 64,
{
    match c {
        MSpanSizeClass::B64 => { assert(64int * 64 == 4096); },
        MSpanSizeClass::B128 => { assert(32int * 128 == 4096); },
        MSpanSizeClass::B256 => { assert(16int * 256 == 4096); },
        MSpanSizeClass::B512 => { assert(8int * 512 == 4096); },
        MSpanSizeClass::B3072 => { assert(4int * 3072 == 12288); },
    }
}

/// A span: `total_blocks` blocks of one size class, the first at offset `start_id`.
pub struct MSpan {
    /// Class that fixes the size of every block.
    pub size_class: MSpanSizeClass,
    /// Offset of the first block.
    pub start_id: ObjectId,
    /// Number of blocks.
    pub total_blocks: usize,
    /// Bit set: the block is taken.
    pub alloc_bits: [u64; 4],
    /// Bit set: the collector found the block alive.
    pub marked_bits: [u64; 4],
}

impl MSpan {
    /// Whether block `k` is taken.
    pub open spec fn allocated(&self, k: int) -> bool {
        bit_at(self.alloc_bits@, k)
    }

    /// Whether block `k` is marked alive.
    pub open spec fn marked(&self, k: int) -> bool {
        bit_at(self.marked_bits@, k)
    }

    /// Offset of block `k`.
    pub open spec fn block_addr(&self, k: int) -> int {
        self.start_id.0 + k * self.size_class.block_size()
    }

    /// Index of the block that the offset `id` lies in.
    pub open spec fn index_of(&self, id: ObjectId) -> int {
        (id.0 - self.start_id.0) / (self.size_class.block_size() as int)
    }

    /// Whether `id` is the offset of one of the blocks.
    pub open spec fn is_block(&self, id: ObjectId) -> bool {
        &&& self.start_id.0 <= id.0
        &&& (id.0 - self.start_id.0) % (self.size_class.block_size() as int) == 0
        &&& self.index_of(id) < self.total_blocks
    }

    /// Whether all blocks are taken.
    pub open spec fn all_allocated(&self) -> bool {
        forall|k: int| 0 <= k < self.total_blocks ==> self.allocated(k)
    }

    /// Whether block `k` is free and no block below it is.
    pub open spec fn is_first_free(&self, k: int) -> bool {
        &&& 0 <= k < self.total_blocks
        &&& !self.allocated(k)
        &&& forall|j: int| 0 <= j < k ==> self.allocated(j)
    }

    /// The masks have a bit for every block, and the blocks lie in addressable memory.
    pub open spec fn in_range(&self) -> bool {
        &&& self.total_blocks <= 256
        &&& self.start_id.0 + self.total_blocks * self.size_class.block_size() <= usize::MAX
    }

    /// The masks have a bit for every block, and the lowest free block, if there is one, begins in
    /// addressable memory.
    pub open spec fn searchable(&self) -> bool {
        &&& self.total_blocks <= 256
        &&& forall|k: int| #[trigger] self.is_first_free(k) ==> self.block_addr(k) <= usize::MAX
    }

    /// A span as `new` makes it: full of blocks of its class, with no bit set past the last block.
    pub open spec fn wf(&self) -> bool {
        &&& self.total_blocks == self.size_class.blocks_per_span()
        &&& self.start_id.0 + self.size_class.span_bytes() <= usize::MAX
        &&& forall|k: int|
            self.total_blocks <= k < 256 ==> !self.allocated(k) && !self.marked(k)
    }

    /// Whether nothing but the bits of the masks differs.
    pub open spec fn same_shape(&self, other: &MSpan) -> bool {
        &&& self.size_class == other.size_class
        &&& self.start_id == other.start_id
        &&& self.total_blocks == other.total_blocks
    }

    /// A new span of the given class at the given offset: no block is taken and none is marked.
    pub open spec fn fresh(size_class: MSpanSizeClass, start_id: ObjectId) -> MSpan {
        MSpan {
            size_class,
            start_id,
            total_blocks: size_class.blocks_per_span() as usize,
            alloc_bits: [0, 0, 0, 0],
            marked_bits: [0, 0, 0, 0],
        }
    }

    /// Number of mask bits that a sweep goes over: those of the words that hold block bits.
    pub open spec fn swept_bits(&self) -> int {
        (self.total_blocks + 63) / 64 * 64
    }

    /// Whether `self` is `before` swept: of the bits that a sweep goes over, the marked blocks alone
    /// are still taken and no mark is left; the other bits are as they were.
    pub open spec fn is_swept(&self, before: &MSpan) -> bool {
        &&& self.same_shape(before)
        &&& forall|k: int|
            0 <= k < 256 ==> self.allocated(k) == (before.allocated(k) && (before.marked(k) || k
                >= before.swept_bits()))
        &&& forall|k: int|
            0 <= k < 256 ==> self.marked(k) == (before.marked(k) && k >= before.swept_bits())
    }

    /// Whether at least as many mask bits are set as the span has blocks.
    pub open spec fn full(&self) -> bool {
        bits_set(self.alloc_bits@, 256) >= self.total_blocks
    }

    /// Whether `self` is `before` with block `k` taken.
    pub open spec fn is_published(&self, before: &MSpan, k: int) -> bool {
        &&& self.same_shape(before)
        &&& self.marked_bits == before.marked_bits
        &&& forall|j: int|
            0 <= j < 256 ==> #[trigger] self.allocated(j) == (before.allocated(j) || j == k)
    }

    /// Whether `self` is `before` with block `k` marked.
    pub open spec fn is_marked_at(&self, before: &MSpan, k: int) -> bool {
        &&& self.same_shape(before)
        &&& self.alloc_bits == before.alloc_bits
        &&& forall|j: int|
            0 <= j < 256 ==> #[trigger] self.marked(j) == (before.marked(j) || j == k)
    }

    /// All blocks of a new span are free. If they lie in addressable memory, the span is well formed.
    pub proof fn lemma_fresh(size_class: MSpanSizeClass, start_id: ObjectId)
        ensures
            start_id.0 + size_class.span_bytes() <= usize::MAX ==> Self::fresh(
                size_class,
                start_id,
            ).wf(),
            Self::fresh(size_class, start_id).is_first_free(0),
            forall|k: int|
                0 <= k < 256 ==> !Self::fresh(size_class, start_id).allocated(k) && !Self::fresh(
                    size_class,
                    start_id,
                ).marked(k),
    {
        let span = Self::fresh(size_class, start_id);
        law_blocks_fill_span(size_class);
        assert forall|k: int| 0 <= k < 256 implies !span.allocated(k) && !span.marked(k) by {
            lemma_bit_zero((k % 64) as u64);
        }
    }

    /// Taking or marking one of its blocks keeps a span well formed.
    pub proof fn lemma_bit_change_wf(&self, before: &MSpan, k: int)
        requires
            before.wf(),
            0 <= k < before.total_blocks,
            self.is_published(before, k) || self.is_marked_at(before, k),
        ensures
            self.wf(),
    {
        before.lemma_wf_in_range();
        assert forall|j: int| self.total_blocks <= j < 256 implies !self.allocated(j)
            && !self.marked(j) by {
            assert(!before.allocated(j) && !before.marked(j));
            assert(self.allocated(j) == before.allocated(j));
            assert(self.marked(j) == before.marked(j));
        }
    }

    /// A well-formed span is full exactly when all of its blocks are taken.
    pub proof fn lemma_full(&self)
        requires
            self.wf(),
        ensures
            self.full() == self.all_allocated(),
    {
        assert forall|k: int| self.total_blocks <= k < 256 implies !bit_at(
            self.alloc_bits@,
            k,
        ) by {
            assert(!self.allocated(k));
        }
        if self.all_allocated() {
            assert forall|k: int| 0 <= k < self.total_blocks implies bit_at(
                self.alloc_bits@,
                k,
            ) by {
                assert(self.allocated(k));
            }
        }
        lemma_bits_set_all(self.alloc_bits@, self.total_blocks as nat);
        lemma_bits_set_tail(self.alloc_bits@, self.total_blocks as nat, 256);
    }

    /// A well-formed span is in range.
    pub proof fn lemma_wf_in_range(&self)
        requires
            self.wf(),
        ensures
            self.in_range(),
            self.searchable(),
            self.total_blocks * self.size_class.block_size() == self.size_class.span_bytes(),
            1 <= self.total_blocks <= 64,
    {
        law_blocks_fill_span(self.size_class);
        let size = self.size_class.block_size() as int;
        assert forall|k: int| #[trigger] self.is_first_free(k) implies self.block_addr(k)
            <= usize::MAX by {
            assert(k * size <= self.total_blocks * size) by (nonlinear_arith)
                requires
                    k <= self.total_blocks,
                    0 <= size,
            ;
        }
    }

    /// A block of a well-formed span ends inside the span.
    pub proof fn lemma_block_end(&self, k: int)
        requires
            self.wf(),
            0 <= k < self.total_blocks,
        ensures
            self.start_id.0 <= self.block_addr(k),
            self.block_addr(k) + self.size_class.block_size() <= self.start_id.0
                + self.size_class.span_bytes(),
    {
        self.lemma_wf_in_range();
        let size = self.size_class.block_size() as int;
        let n = self.total_blocks as int;
        assert(0 <= k * size && k * size + size <= n * size) by (nonlinear_arith)
            requires
                0 <= k < n,
                0 <= size,
        ;
    }

    /// The offset of a block and the index of a block determine each other.
    pub proof fn lemma_block_addr(&self, k: int, id: ObjectId)
        requires
            0 <= k < self.total_blocks,
            id.0 == self.block_addr(k),
        ensures
            self.is_block(id),
            self.index_of(id) == k,
    {
        let size = self.size_class.block_size() as int;
        vstd::arithmetic::div_mod::lemma_div_multiples_vanish(k, size);
        vstd::arithmetic::div_mod::lemma_mod_multiples_basic(k, size);
        vstd::arithmetic::mul::lemma_mul_is_commutative(k, size);
        vstd::arithmetic::mul::lemma_mul_nonnegative(k, size);
    }

    /// A block offset is the offset of the block at its index.
    pub proof fn lemma_is_block(&self, id: ObjectId)
        requires
            self.is_block(id),
        ensures
            0 <= self.index_of(id) < self.total_blocks,
            self.block_addr(self.index_of(id)) == id.0,
    {
        let size = self.size_class.block_size() as int;
        let k = self.index_of(id);
        vstd::arithmetic::div_mod::lemma_fundamental_div_mod(id.0 - self.start_id.0, size);
        vstd::arithmetic::div_mod::lemma_div_pos_is_pos(id.0 - self.start_id.0, size);
        vstd::arithmetic::mul::lemma_mul_is_commutative(k, size);
    }

    /// A span of the given class at the given offset, with every block free and unmarked.
    pub fn new(size_class: MSpanSizeClass, start_id: ObjectId) -> (span: Self)
        ensures
            span == Self::fresh(size_class, start_id),
            start_id.0 + size_class.span_bytes() <= usize::MAX ==> span.wf() && span.in_range(),
            span.searchable(),
            forall|k: int| 0 <= k < 256 ==> !span.allocated(k) && !span.marked(k),
    {
        let block_size: usize = size_class.block_size();
        let total_pages: usize = size_class.pages_per_span();
        let total_blocks: usize = (total_pages * 4096) / block_size;
        let span = MSpan {
            size_class,
            start_id,
            total_blocks,
            alloc_bits: [0, 0, 0, 0],
            marked_bits: [0, 0, 0, 0],
        };
        proof {
            Self::lemma_fresh(size_class, start_id);
            law_blocks_fill_span(size_class);
            if start_id.0 + size_class.span_bytes() <= usize::MAX {
                span.lemma_wf_in_range();
            }
            assert forall|k: int| #[trigger] span.is_first_free(k) implies span.block_addr(k)
                <= usize::MAX by {
                if k > 0 {
                    assert(span.allocated(0));
                }
            }
        }
        span
    }

    /// The offset of the lowest free block, if there is one.
    pub fn find_next_block(&self) -> (r: Option<ObjectId>)
        requires
            self.searchable(),
        ensures
            match r {
                Some(id) => self.is_block(id) && self.is_first_free(self.index_of(id)),
                None => self.all_allocated(),
            },
    {
        let words_to_check: usize = (self.total_blocks + 63) / 64;
        let mut i: usize = 0;
        while i < words_to_check
            invariant
                i <= words_to_check,
                words_to_check == (self.total_blocks + 63) / 64,
                self.searchable(),
                forall|k: int| 0 <= k < i * 64 ==> self.allocated(k),
            decreases words_to_check - i,
        {
            let current: u64 = self.alloc_bits[i];
            if current != u64::MAX {
                let free_mask: u64 = !current;
                let bit_index: usize = free_mask.trailing_zeros() as usize;
                let global_index: usize = (i * 64) + bit_index;
                proof {
                    lemma_lowest_clear(current);
                    assert forall|k: int| 0 <= k < global_index implies self.allocated(k) by {
                        if k >= i * 64 {
                            assert(bit_of(current, k - i * 64));
                        }
                    }
                }
                if global_index >= self.total_blocks {
                    return None;
                }
                let block_size: usize = self.size_class.block_size();
                proof {
                    assert(self.is_first_free(global_index as int));
                    assert(0 <= global_index * block_size) by (nonlinear_arith)
                        requires
                            0 <= global_index,
                            0 <= block_size,
                    ;
                }
                let slot_offset: usize = self.start_id.0 + (global_index * block_size);
                proof {
                    self.lemma_block_addr(global_index as int, ObjectId(slot_offset));
                }
                return Some(ObjectId(slot_offset));
            }
            proof {
                assert forall|k: int| 0 <= k < (i + 1) * 64 implies self.allocated(k) by {
                    if k >= i * 64 {
                        lemma_full_word(k - i * 64);
                    }
                }
            }
            i = i + 1;
        }
        None
    }

    /// Marks the block that `object_id` lies in as taken.
    pub fn publish_block(&mut self, object_id: ObjectId)
        requires
            old(self).start_id.0 <= object_id.0,
            old(self).index_of(object_id) < 256,
        ensures
            final(self).is_published(old(self), old(self).index_of(object_id)),
    {
        let global_index: usize = (object_id.0 - self.start_id.0) / self.size_class.block_size();
        let mask_idx: usize = global_index / 64;
        let bit_pos: usize = global_index % 64;
        let mask: u64 = 1u64 << bit_pos;
        self.alloc_bits[mask_idx] = self.alloc_bits[mask_idx] | mask;
        proof {
            assert forall|k: int| 0 <= k < 256 implies self.allocated(k) == (old(self).allocated(k)
                || k == old(self).index_of(object_id)) by {
                if k / 64 == mask_idx {
                    lemma_bit_or(
                        old(self).alloc_bits@[mask_idx as int],
                        bit_pos as u64,
                        (k % 64) as u64,
                    );
                }
            }
        }
    }

    /// Whether block `index` is taken.
    pub fn allocated_at(&self, index: usize) -> (r: bool)
        requires
            index < 256,
        ensures
            r == self.allocated(index as int),
    {
        let bit_pos: usize = index % 64;
        proof {
            lemma_bit_test(self.alloc_bits@[index as int / 64], bit_pos as u64);
        }
        (self.alloc_bits[index / 64] & (1u64 << bit_pos)) != 0
    }

    /// Marks block `index` as alive and says whether it was not marked before.
    pub fn mark_at(&mut self, index: usize) -> (r: bool)
        requires
            index < 256,
        ensures
            final(self).is_marked_at(old(self), index as int),
            r == !old(self).marked(index as int),
    {
        let mask_idx: usize = index / 64;
        let bit_pos: usize = index % 64;
        let mask: u64 = 1u64 << bit_pos;
        let old_val: u64 = self.marked_bits[mask_idx];
        self.marked_bits[mask_idx] = old_val | mask;
        proof {
            lemma_bit_test(old_val, bit_pos as u64);
            assert forall|k: int| 0 <= k < 256 implies self.marked(k) == (old(self).marked(k) || k
                == index) by {
                if k / 64 == mask_idx {
                    lemma_bit_or(old_val, bit_pos as u64, (k % 64) as u64);
                }
            }
        }
        (old_val & mask) == 0
    }

    /// Frees every block that is not marked, and clears the marks for the next cycle.
    pub fn sweep(&mut self)
        requires
            old(self).total_blocks <= 256,
        ensures
            final(self).is_swept(old(self)),
            old(self).wf() ==> final(self).wf(),
    {
        let words_to_check: usize = (self.total_blocks + 63) / 64;
        let mut i: usize = 0;
        while i < words_to_check
            invariant
                i <= words_to_check <= 4,
                words_to_check == (self.total_blocks + 63) / 64,
                self.same_shape(old(self)),
                forall|k: int|
                    0 <= k < 256 ==> self.allocated(k) == (old(self).allocated(k) && (k >= i * 64
                        || old(self).marked(k))),
                forall|k: int|
                    0 <= k < 256 ==> self.marked(k) == (old(self).marked(k) && k >= i * 64),
            decreases words_to_check - i,
        {
            let ghost before = *self;
            let marked: u64 = self.marked_bits[i];
            self.alloc_bits[i] = self.alloc_bits[i] & marked;
            self.marked_bits[i] = 0;
            proof {
                assert forall|k: int| 0 <= k < 256 implies self.allocated(k) == (old(
                    self,
                ).allocated(k) && (k >= (i + 1) * 64 || old(self).marked(k))) && self.marked(k)
                    == (old(self).marked(k) && k >= (i + 1) * 64) by {
                    assert(before.allocated(k) == (old(self).allocated(k) && (k >= i * 64 || old(
                        self,
                    ).marked(k))));
                    assert(before.marked(k) == (old(self).marked(k) && k >= i * 64));
                    if k / 64 == i {
                        lemma_bit_and(before.alloc_bits@[i as int], marked, (k % 64) as u64);
                        lemma_bit_zero((k % 64) as u64);
                    }
                }
            }
            i = i + 1;
        }
    }

    /// Whether at least as many blocks are taken as the span has.
    pub fn is_full(&self) -> (r: bool)
        ensures
            r == self.full(),
            self.wf() ==> r == self.all_allocated(),
    {
        let mut total_allocated: usize = 0;
        let mut i: usize = 0;
        while i < 4
            invariant
                i <= 4,
                total_allocated == bits_set(self.alloc_bits@, (i * 64) as nat),
                total_allocated <= i * 64,
            decreases 4 - i,
        {
            let word: u64 = self.alloc_bits[i];
            let mut b: u64 = 0;
            while b < 64
                invariant
                    i < 4,
                    b <= 64,
                    word == self.alloc_bits@[i as int],
                    total_allocated == bits_set(self.alloc_bits@, (i * 64 + b) as nat),
                    total_allocated <= i * 64 + b,
                decreases 64 - b,
            {
                proof {
                    assert(bit_at(self.alloc_bits@, i * 64 + b) == bit_of(word, b as int));
                }
                if (word >> b) & 1 == 1 {
                    total_allocated = total_allocated + 1;
                }
                b = b + 1;
            }
            i = i + 1;
        }
        proof {
            if self.wf() {
                self.lemma_full();
            }
        }
        total_allocated >= self.total_blocks
    }
}

} // verus!
