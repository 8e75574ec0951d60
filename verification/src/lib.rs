//! A managed heap with a size-class allocator and a tri-colour garbage collector.

pub mod bump_allocator;
pub mod bump_collector;
pub mod bump_heap;
pub mod datastruct;
pub mod garbage_collector;
pub mod laws_allocation;
pub mod laws_bump;
pub mod laws_collection;
pub mod laws_footprint;
pub mod laws_heap;
pub mod laws_mixed;
pub mod laws_pool;
pub mod laws_requests;
pub mod laws_reuse;
pub mod laws_spans;
pub mod laws_workload;
pub mod managed_heap;
pub mod mcache;
pub mod mcentral;
pub mod memory;
pub mod mspan;
pub mod reach;
pub mod uniform_heap;
pub mod workload;
