//! Reading, editing and writing host configuration files made of named
//! blocks of key-value directives.

pub mod block;
pub mod canon;
pub mod fields;
pub mod laws;
pub mod parse;
pub mod serialize;
pub mod text;
pub mod update;

pub use block::SingleConfig;
pub use parse::parse;
pub use serialize::serialize;
pub use update::{update_field, update_ip, HOST};
