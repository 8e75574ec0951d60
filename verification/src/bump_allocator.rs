//! An allocator that places one object right behind the other.
//!
//! An object is a header of 40 bytes, its references, eight bytes each, and its payload, padded to a
//! multiple of eight bytes. The allocator keeps no list of the objects: all that is known of an
//! object is in its header.

use crate::datastruct::{
    AllocError, GcColor, ObjectHeader, ObjectId, OBJECT_HEADER_SIZE, OBJECT_ID_SIZE,
};
use crate::memory::{
    is_native, lemma_same_word, lemma_word_bytes, native_order, read_word, splice, word_at, word_bytes,
    write_word, ByteOrder,
};
use vstd::prelude::*;

verus! {

/// The byte that stands for a colour.
pub open spec fn color_code(c: GcColor) -> u8 {
    match c {
        GcColor::White => 0,
        GcColor::Grey => 1,
        GcColor::Black => 2,
    }
}

/// The colour that a byte stands for.
pub open spec fn color_from(b: u8) -> GcColor {
    if b == 0 {
        GcColor::White
    } else if b == 1 {
        GcColor::Grey
    } else {
        GcColor::Black
    }
}

/// The bytes of a header: identifier, colour with seven bytes of padding, size, number of references,
/// payload size.
pub open spec fn header_bytes(order: ByteOrder, h: ObjectHeader) -> Seq<u8> {
    word_bytes(order, h.id.0 as u64) + seq![color_code(h.color), 0u8, 0u8, 0u8, 0u8, 0u8, 0u8, 0u8]
        + word_bytes(order, h.size as u64) + word_bytes(order, h.refs_count as u64) + word_bytes(
        order,
        h.payload_size as u64,
    )
}

/// The header in the 40 bytes from `at` on.
pub open spec fn header_at(order: ByteOrder, mem: Seq<u8>, at: int) -> ObjectHeader {
    ObjectHeader {
        id: ObjectId(word_at(order, mem, at) as usize),
        color: color_from(mem[at + 8]),
        size: word_at(order, mem, at + 16) as usize,
        refs_count: word_at(order, mem, at + 24) as usize,
        payload_size: word_at(order, mem, at + 32) as usize,
    }
}

/// Whether the 40 bytes from `at` on lie inside the memory and the byte for the colour stands for one.
/// The bytes are not known to be a header: nothing tells whether they were written as one.
pub open spec fn has_header(mem: Seq<u8>, at: int) -> bool {
    at + OBJECT_HEADER_SIZE <= mem.len() && mem[at + 8] <= 2
}

/// The `n` references that begin at `at`.
pub open spec fn references_at(order: ByteOrder, mem: Seq<u8>, at: int, n: int) -> Seq<ObjectId> {
    Seq::new(n as nat, |i: int| ObjectId(word_at(order, mem, at + i * OBJECT_ID_SIZE) as usize))
}

/// `n` rounded up to a multiple of eight.
pub open spec fn aligned(n: int) -> int {
    (n + 7) / 8 * 8
}

/// Size of an object with the given numbers of references and payload bytes.
pub open spec fn object_size(refs_count: int, payload_size: int) -> int {
    OBJECT_HEADER_SIZE + aligned(payload_size) + refs_count * OBJECT_ID_SIZE
}

/// The size of an object is a multiple of eight bytes and holds the payload.
pub proof fn lemma_object_size(refs_count: int, payload_size: int)
    requires
        0 <= refs_count,
        0 <= payload_size,
    ensures
        object_size(refs_count, payload_size) % 8 == 0,
        OBJECT_HEADER_SIZE + refs_count * OBJECT_ID_SIZE + payload_size <= object_size(
            refs_count,
            payload_size,
        ),
{
}

/// A header written at `at` is read back from `at`.
pub proof fn lemma_header_written(order: ByteOrder, mem: Seq<u8>, at: int, h: ObjectHeader)
    requires
        0 <= at,
        at + OBJECT_HEADER_SIZE <= mem.len(),
    ensures
        header_bytes(order, h).len() == OBJECT_HEADER_SIZE,
        has_header(splice(mem, at, header_bytes(order, h)), at),
        header_at(order, splice(mem, at, header_bytes(order, h)), at) == h,
{
    lemma_word_bytes();
    let m = splice(mem, at, header_bytes(order, h));
    assert(m.subrange(at, at + 8) =~= word_bytes(order, h.id.0 as u64));
    assert(m.subrange(at + 16, at + 24) =~= word_bytes(order, h.size as u64));
    assert(m.subrange(at + 24, at + 32) =~= word_bytes(order, h.refs_count as u64));
    assert(m.subrange(at + 32, at + 40) =~= word_bytes(order, h.payload_size as u64));
}

/// Memories that agree on the 40 bytes of a header hold the same header.
pub proof fn lemma_same_header(order: ByteOrder, a: Seq<u8>, b: Seq<u8>, at: int)
    requires
        0 <= at,
        at + OBJECT_HEADER_SIZE <= a.len(),
        at + OBJECT_HEADER_SIZE <= b.len(),
        forall|i: int| at <= i < at + OBJECT_HEADER_SIZE ==> a[i] == b[i],
    ensures
        header_at(order, a, at) == header_at(order, b, at),
        has_header(a, at) == has_header(b, at),
{
    lemma_same_word(order, a, b, at);
    lemma_same_word(order, a, b, at + 16);
    lemma_same_word(order, a, b, at + 24);
    lemma_same_word(order, a, b, at + 32);
}

/// Rounds up to a multiple of eight.
fn align_up(n: usize) -> (r: usize)
    requires
        n + 7 <= usize::MAX,
    ensures
        r == aligned(n as int),
{
    let m: usize = n + 7;
    assert(m & !7usize == m / 8 * 8) by (bit_vector);
    m & !7usize
}

/// The allocator.
pub struct BumpAllocator {
    order: ByteOrder,
    heap: Vec<u8>,
    next: usize,
}

/// What an allocator holds.
#[verifier::ext_equal]
pub struct BumpState {
    /// The order of the bytes of a word.
    pub order: ByteOrder,
    /// The bytes.
    pub memory: Seq<u8>,
    /// Offset of the next object.
    pub next: int,
}

impl View for BumpAllocator {
    type V = BumpState;

    closed spec fn view(&self) -> BumpState {
        BumpState { order: self.order, memory: self.heap@, next: self.next as int }
    }
}

impl BumpState {
    /// The invariant of an allocator. Objects begin at multiples of eight bytes.
    pub open spec fn wf(self) -> bool {
        &&& 0 <= self.next <= self.memory.len() <= isize::MAX
        &&& self.next % 8 == 0
    }

    /// Whether a header can be read at `id`: all of it lies below the next object, and its colour is
    /// valid. The bytes are not known to be a header: `id` may point into the middle of an object.
    pub open spec fn readable(self, id: ObjectId) -> bool {
        id.0 + OBJECT_HEADER_SIZE <= self.next && has_header(self.memory, id.0 as int)
    }

    /// The header at `id`.
    pub open spec fn header(self, id: ObjectId) -> ObjectHeader {
        header_at(self.order, self.memory, id.0 as int)
    }

    /// Whether the references that the header at `id` announces lie inside the memory.
    pub open spec fn refs_readable(self, id: ObjectId) -> bool {
        &&& self.readable(id)
        &&& id.0 + OBJECT_HEADER_SIZE + self.header(id).refs_count * OBJECT_ID_SIZE
            <= self.memory.len()
    }

    /// The references of the object at `id`.
    pub open spec fn references(self, id: ObjectId) -> Seq<ObjectId> {
        references_at(
            self.order,
            self.memory,
            id.0 + OBJECT_HEADER_SIZE,
            self.header(id).refs_count as int,
        )
    }

    /// The header of a new object at the next offset.
    pub open spec fn new_header(self, refs_count: usize, payload_size: usize) -> ObjectHeader {
        ObjectHeader {
            id: ObjectId(self.next as usize),
            color: GcColor::White,
            size: object_size(refs_count as int, payload_size as int) as usize,
            refs_count,
            payload_size,
        }
    }
}

impl BumpAllocator {
    /// The invariant of an allocator.
    pub open spec fn wf(&self) -> bool {
        self@.wf()
    }

    /// An allocator over `capacity` zero bytes that lays out words as this machine does.
    pub fn new(capacity: usize) -> (a: Self)
        requires
            capacity <= isize::MAX,
        ensures
            a.wf(),
            is_native(a@.order),
            a@ == (BumpState {
                order: a@.order,
                memory: Seq::new(capacity as nat, |i: int| 0u8),
                next: 0,
            }),
    {
        BumpAllocator::with_order(capacity, native_order())
    }

    /// An allocator over `capacity` zero bytes that lays out words in the given order.
    pub fn with_order(capacity: usize, order: ByteOrder) -> (a: Self)
        requires
            capacity <= isize::MAX,
        ensures
            a.wf(),
            a@ == (BumpState { order, memory: Seq::new(capacity as nat, |i: int| 0u8), next: 0 }),
    {
        let heap: Vec<u8> = vec![0u8; capacity];
        let a = BumpAllocator { order, heap, next: 0 };
        proof {
            assert(a@.memory =~= Seq::new(capacity as nat, |i: int| 0u8));
        }
        a
    }

    /// The order in which the bytes of a word lie in memory.
    pub fn byte_order(&self) -> (order: ByteOrder)
        ensures
            order == self@.order,
    {
        self.order
    }

    /// Reserves room for an object and writes its header. The references and the payload stay as
    /// they are; filling them in is the caller's work.
    pub fn allocate(&mut self, refs_count: usize, payload_size: usize) -> (r: Result<
        ObjectId,
        AllocError,
    >)
        requires
            old(self).wf(),
        ensures
            final(self).wf(),
            match r {
                Ok(id) => {
                    let size = object_size(refs_count as int, payload_size as int);
                    &&& old(self)@.next + size <= old(self)@.memory.len()
                    &&& id.0 == old(self)@.next
                    &&& final(self)@.order == old(self)@.order
                    &&& final(self)@.next == old(self)@.next + size
                    &&& final(self)@.memory == splice(
                        old(self)@.memory,
                        old(self)@.next,
                        header_bytes(
                            old(self)@.order,
                            old(self)@.new_header(refs_count, payload_size),
                        ),
                    )
                },
                Err(e) => {
                    &&& e == AllocError::OutOfMemory
                    &&& old(self)@.next + object_size(refs_count as int, payload_size as int) > old(
                        self,
                    )@.memory.len()
                    &&& final(self)@ == old(self)@
                },
            },
    {
        let current_offset: usize = self.next;
        let object_id = ObjectId(current_offset);
        let free: usize = self.heap.len() - current_offset;
        if payload_size > free {
            return Err(AllocError::OutOfMemory);
        }
        let aligned_payload: usize = align_up(payload_size);
        if free < OBJECT_HEADER_SIZE || free - OBJECT_HEADER_SIZE < aligned_payload {
            return Err(AllocError::OutOfMemory);
        }
        if refs_count > (free - OBJECT_HEADER_SIZE - aligned_payload) / OBJECT_ID_SIZE {
            return Err(AllocError::OutOfMemory);
        }
        let total_size: usize = OBJECT_HEADER_SIZE + aligned_payload + refs_count * OBJECT_ID_SIZE;
        let header = ObjectHeader {
            id: object_id,
            color: GcColor::White,
            size: total_size,
            refs_count,
            payload_size,
        };
        self.write_header(current_offset, header);
        self.next = current_offset + total_size;
        Ok(object_id)
    }

    fn write_header(&mut self, at: usize, header: ObjectHeader)
        requires
            at + OBJECT_HEADER_SIZE <= old(self)@.memory.len(),
        ensures
            final(self)@ == (BumpState {
                memory: splice(
                    old(self)@.memory,
                    at as int,
                    header_bytes(old(self)@.order, header),
                ),
                ..old(self)@
            }),
    {
        // The length of a vector fits into a word.
        let ghost size = self.heap.len();
        let code: u8 = match header.color {
            GcColor::White => 0,
            GcColor::Grey => 1,
            GcColor::Black => 2,
        };
        write_word(self.order, &mut self.heap, at, header.id.0 as u64);
        let color: [u8; 8] = [code, 0, 0, 0, 0, 0, 0, 0];
        crate::memory::write_bytes(&mut self.heap, at + 8, color.as_slice());
        write_word(self.order, &mut self.heap, at + 16, header.size as u64);
        write_word(self.order, &mut self.heap, at + 24, header.refs_count as u64);
        write_word(self.order, &mut self.heap, at + 32, header.payload_size as u64);
        proof {
            lemma_word_bytes();
            assert(self.heap@ =~= splice(
                old(self).heap@,
                at as int,
                header_bytes(self.order, header),
            ));
        }
    }

    /// Reads the header at `object_id`. Fails if no whole header lies there below the next object, or if
    /// the byte for the colour stands for none. Otherwise the bytes are read as a header, though in the
    /// middle of an object they are not known to be one.
    pub fn read_header(&self, object_id: ObjectId) -> (r: Result<ObjectHeader, AllocError>)
        requires
            self.wf(),
        ensures
            match r {
                Ok(header) => self@.readable(object_id) && header == self@.header(object_id),
                Err(e) => e == AllocError::InvalidPointer && !self@.readable(object_id),
            },
    {
        if object_id.0 >= self.next {
            return Err(AllocError::InvalidPointer);
        }
        let offset: usize = object_id.0;
        if offset + OBJECT_HEADER_SIZE > self.next {
            return Err(AllocError::InvalidPointer);
        }
        let code: u8 = self.heap[offset + 8];
        let color = if code == 0 {
            GcColor::White
        } else if code == 1 {
            GcColor::Grey
        } else if code == 2 {
            GcColor::Black
        } else {
            return Err(AllocError::InvalidPointer);
        };
        Ok(
            ObjectHeader {
                id: ObjectId(read_word(self.order, &self.heap, offset) as usize),
                color,
                size: read_word(self.order, &self.heap, offset + 16) as usize,
                refs_count: read_word(self.order, &self.heap, offset + 24) as usize,
                payload_size: read_word(self.order, &self.heap, offset + 32) as usize,
            },
        )
    }

    /// Writes a header over the one at `object_id`. Fails if it would not lie inside the memory.
    pub fn update_header(&mut self, object_id: ObjectId, header: ObjectHeader) -> (r: Result<
        (),
        AllocError,
    >)
        requires
            old(self).wf(),
        ensures
            final(self).wf(),
            match r {
                Ok(_) => {
                    &&& object_id.0 + OBJECT_HEADER_SIZE <= old(self)@.memory.len()
                    &&& final(self)@ == (BumpState {
                        memory: splice(
                            old(self)@.memory,
                            object_id.0 as int,
                            header_bytes(old(self)@.order, header),
                        ),
                        ..old(self)@
                    })
                },
                Err(e) => {
                    &&& e == AllocError::InvalidPointer
                    &&& object_id.0 + OBJECT_HEADER_SIZE > old(self)@.memory.len()
                    &&& final(self)@ == old(self)@
                },
            },
    {
        match self.get_object_ptr(object_id) {
            Ok(offset) => {
                self.write_header(offset, header);
                Ok(())
            },
            Err(e) => Err(e),
        }
    }

    /// The position of the object's first byte. Fails if no whole header can be there.
    pub fn get_object_ptr(&self, object_id: ObjectId) -> (r: Result<usize, AllocError>)
        requires
            self.wf(),
        ensures
            match r {
                Ok(at) => at == object_id.0 && object_id.0 + OBJECT_HEADER_SIZE
                    <= self@.memory.len(),
                Err(e) => e == AllocError::InvalidPointer && object_id.0 + OBJECT_HEADER_SIZE
                    > self@.memory.len(),
            },
    {
        let offset: usize = object_id.0;
        if offset > self.heap.len() || self.heap.len() - offset < OBJECT_HEADER_SIZE {
            return Err(AllocError::InvalidPointer);
        }
        Ok(offset)
    }

    /// Reads the references of the object at `object_id`. Fails where its header cannot be read, and
    /// if the references do not lie inside the memory.
    pub fn read_references(&self, object_id: ObjectId) -> (r: Result<Vec<ObjectId>, AllocError>)
        requires
            self.wf(),
        ensures
            match r {
                Ok(refs) => self@.refs_readable(object_id) && refs@ == self@.references(object_id),
                Err(e) => e == AllocError::InvalidPointer && !self@.refs_readable(object_id),
            },
    {
        let header = match self.read_header(object_id) {
            Ok(header) => header,
            Err(e) => {
                return Err(e);
            },
        };
        let offset: usize = object_id.0 + OBJECT_HEADER_SIZE;
        if header.refs_count > (self.heap.len() - offset) / OBJECT_ID_SIZE {
            return Err(AllocError::InvalidPointer);
        }
        let mut references: Vec<ObjectId> = Vec::new();
        let mut i: usize = 0;
        while i < header.refs_count
            invariant
                i <= header.refs_count,
                header == self@.header(object_id),
                self.wf(),
                offset == object_id.0 + OBJECT_HEADER_SIZE,
                offset + header.refs_count * OBJECT_ID_SIZE <= self.heap.len(),
                references@ == self@.references(object_id).take(i as int),
            decreases header.refs_count - i,
        {
            let word: u64 = read_word(self.order, &self.heap, offset + i * OBJECT_ID_SIZE);
            references.push(ObjectId(word as usize));
            i = i + 1;
            proof {
                assert(references@ =~= self@.references(object_id).take(i as int));
            }
        }
        proof {
            assert(references@ =~= self@.references(object_id));
        }
        Ok(references)
    }

    /// Whether `object_id` is not below the next object.
    pub fn over_next(&self, object_id: ObjectId) -> (r: bool)
        ensures
            r == (object_id.0 >= self@.next),
    {
        object_id.0 >= self.next
    }

    /// Stores a reference at `at`.
    pub fn write_reference(&mut self, at: usize, reference: ObjectId)
        requires
            at + OBJECT_ID_SIZE <= old(self)@.memory.len(),
        ensures
            final(self)@ == (BumpState {
                memory: splice(
                    old(self)@.memory,
                    at as int,
                    word_bytes(old(self)@.order, reference.0 as u64),
                ),
                ..old(self)@
            }),
    {
        // The length of a vector fits into a word.
        let ghost size = self.heap.len();
        write_word(self.order, &mut self.heap, at, reference.0 as u64);
    }

    /// Copies `bytes` over the memory from `at` on.
    pub fn write_bytes(&mut self, at: usize, bytes: &[u8])
        requires
            at + bytes.len() <= old(self)@.memory.len(),
        ensures
            final(self)@ == (BumpState {
                memory: splice(old(self)@.memory, at as int, bytes@),
                ..old(self)@
            }),
    {
        // The length of a vector fits into a word.
        let ghost size = self.heap.len();
        crate::memory::write_bytes(&mut self.heap, at, bytes);
    }

    /// Copies `len` bytes from `at` on.
    pub fn read_bytes(&self, at: usize, len: usize) -> (bytes: Vec<u8>)
        requires
            at + len <= self@.memory.len(),
        ensures
            bytes@ == self@.memory.subrange(at as int, at + len),
    {
        // The length of a vector fits into a word.
        let ghost size = self.heap.len();
        let mut bytes: Vec<u8> = Vec::new();
        let mut i: usize = 0;
        while i < len
            invariant
                i <= len,
                at + len <= self.heap.len(),
                bytes@ == self.heap@.subrange(at as int, at + i),
            decreases len - i,
        {
            bytes.push(self.heap[at + i]);
            i = i + 1;
            proof {
                assert(bytes@ =~= self.heap@.subrange(at as int, at + i));
            }
        }
        bytes
    }

    /// Number of bytes of the memory.
    pub fn capacity(&self) -> (n: usize)
        ensures
            n == self@.memory.len(),
    {
        self.heap.len()
    }
}

} // verus!
