//! Content-addressed sharing of files and directory trees between peers:
//! portable names for paths, content digests, a store that files blobs under
//! their digests, manifests of directory trees, tickets, and the decisions of
//! the receiving side of a transfer.

mod digest;
mod error;
mod import;
mod manifest;
mod path;
mod store;
mod ticket;
mod transfer;

pub use digest::{check_digest, digest, digest_stream, same_id, verify_content};
pub use error::ShareError;
pub use import::{import_names, WalkEntry};
pub use manifest::{name_less, Manifest, ManifestEntry};
pub use path::{canonicalized_path_to_string, name_segments, PathComponent};
pub use store::{BlobRecord, BlobStore};
pub use transfer::{is_terminal, step, ReceiveAction, ReceiveEvent, ReceiveState, MAX_CONNECT_ATTEMPTS};
pub use ticket::{ContentKind, Ticket};
