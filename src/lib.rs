pub mod error;
pub mod framing;
pub mod locate;
pub mod store;
pub mod utlis;

pub use error::ObjError;
pub use framing::{compute_oid, format_object_content, object_location, oid_hex};
pub use locate::{locate_step, LocateStep};
pub use store::{decode_object, encode_object, parse_object, resolve_in_directory, split_prefix};
