//! A registry of metadata about generated files.
//!
//! Every record is filed under a content key, attributed to the identity that
//! submitted it, stamped by the store, and may point back at an earlier record
//! to form a version chain. A small identity registry maps identities to user
//! names.
pub mod identity;
pub mod record;
pub mod registry;
pub mod store;
pub mod laws;

pub use identity::Identity;
pub use record::{ErrorKind, FileMetadata, RecordView};
pub use registry::{IdentityRegistry, ProfileView, UserProfile};
pub use store::{Lineage, LineageView, MetadataStore};
