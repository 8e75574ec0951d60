//! Identifiers, object descriptions and constants shared by every part of the runtime.

use vstd::prelude::*;

verus! {

/// Size of a heap page in bytes.
pub const PAGE_SIZE: usize = 4096;

/// Bytes taken by the type word in front of every object of the paged heap.
pub const OBJ_HEADER_SIZE: usize = 8;

/// Bytes taken by the header in front of every object of the bump-allocated heap.
pub const OBJECT_HEADER_SIZE: usize = 40;

/// Bytes taken by one reference field.
pub const OBJECT_ID_SIZE: usize = 8;

/// A virtual pointer into managed memory: the offset in bytes from the start of the heap.
#[derive(Copy, Clone, Debug, Hash, PartialEq, Eq, Structural)]
pub struct ObjectId(pub usize);

/// What the collector has to know of an object's type.
#[derive(Debug, Clone, Copy, PartialEq, Eq, Structural)]
pub struct TypeDescriptor {
    /// Size of the object in bytes, with its type word.
    pub total_size: usize,
    /// How many of the first eight-byte payload fields are references.
    pub refs_count: usize,
}

/// The address of a type descriptor, as it is stored in front of an object. Zero is null; a heap
/// hands out the others when it registers a descriptor.
#[derive(Debug, Clone, Copy, PartialEq, Eq, Structural)]
pub struct TypePtr(pub usize);

/// An object of the paged heap: a type and a flat payload, references first.
#[derive(Debug, Clone)]
pub struct ManagedObject {
    /// Address of the descriptor of the object's type.
    pub type_desc_ptr: TypePtr,
    /// References and plain data, in one run of bytes.
    pub payload: Vec<u8>,
}

/// Marker colours of the tri-colour abstraction.
#[derive(Debug, Clone, Copy, PartialEq, Eq, Structural)]
pub enum GcColor {
    /// Not discovered yet; garbage if it is still white when marking ends.
    White,
    /// Discovered, but its references have not been followed yet.
    Grey,
    /// Discovered, and all of its references have been followed.
    Black,
}

/// The header of an object of the bump-allocated heap.
#[derive(Debug, Clone, Copy, PartialEq, Eq, Structural)]
pub struct ObjectHeader {
    /// The object's own identifier.
    pub id: ObjectId,
    /// The object's colour.
    pub color: GcColor,
    /// Size of the whole object in bytes, with its header; the next object begins that far on.
    pub size: usize,
    /// Number of references behind the header.
    pub refs_count: usize,
    /// Number of payload bytes behind the references, without padding.
    pub payload_size: usize,
}

/// What can go wrong in the allocators.
#[derive(Debug, Clone, Copy, PartialEq, Eq, Structural)]
pub enum AllocError {
    /// The heap has no room left for the request.
    OutOfMemory,
    /// The identifier does not name an object.
    InvalidPointer,
}

} // verus!
