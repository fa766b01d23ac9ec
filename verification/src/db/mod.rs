//! The records of a MIME database, in owned and in borrowed form, and the
//! containers that hold them.

pub mod db_traits;
pub mod owned_db_types;
pub mod borrowed_db_types;
pub mod shared_mime_db_types;
pub mod buildable_db_provider;
pub mod parse_magic_rule;
pub mod shared_mime_db_provider;
