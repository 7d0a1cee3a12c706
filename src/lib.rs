//! A bencode decoder: byte strings, signed integers and (nested) lists,
//! decoded from raw bytes into a tagged value tree and presented as JSON.

pub mod value;
pub mod grammar;
pub mod decode;
pub mod present;
pub mod laws;

pub use decode::{decode_int, decode_list, decode_string, decode_value, get_colon_idx_and_num};
pub use present::{decode_bencoded_value, decode_type_to_serde_json};
pub use value::{DecodeError, DecodedType};
