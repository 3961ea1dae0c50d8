//! An in-memory associative container mapping variable-length byte-string keys
//! to arbitrary values, built for bulk workloads such as group-by aggregation
//! and hash-join probing over large numbers of short keys.
//!
//! The centrepiece is an adaptive, size-classed open-addressing hash table:
//! keys are classified by length alone and routed to one of several table
//! instances, each storing keys with a strategy tuned to its size class.
//! Short keys are copied into fixed-capacity buffers embedded in the slots;
//! keys longer than 24 bytes are copied once into a shared bump arena and the
//! slot keeps a stable slice plus a cached hash. All classes share one generic
//! probing, insertion, deletion and resize engine.

pub mod adaptive;
pub mod common;
pub mod hasher;
pub mod large;
pub mod small;
pub mod small0;

pub use self::adaptive::KeyRef;
pub use self::adaptive::StringMap;
pub use self::common::Entry;
pub use self::common::Slot;
pub use self::common::SlotData;
pub use self::hasher::FnvHasher;
pub use self::hasher::KeyHasher;
pub use self::large::StringMap as LargeStringMap;
pub use self::small::StringMap as SmallStringMap;
pub use self::small0::StringMap as ArrayStringMap;
