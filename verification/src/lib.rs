//! Storage for a type-erased value inside a caller-supplied byte buffer.
//!
//! A caller hands the container a fixed-size byte buffer and a value whose
//! concrete type has been erased down to its bytes, its alignment and a
//! dispatch tag. The container computes the combined layout of a dispatch
//! descriptor followed by the value, pads the start of the buffer so the
//! record is properly aligned, writes the descriptor and the value, and
//! later reconstructs both purely from the buffer's contents. No heap
//! allocation is needed beyond the buffer the caller already owns.

pub mod container;
pub mod laws;
pub mod layout;

pub use container::meta_offset_layout;
pub use container::ConstructError;
pub use container::Descriptor;
pub use container::ErasedValue;
pub use container::ErrorKind;
pub use container::Box;
pub use layout::Layout;
