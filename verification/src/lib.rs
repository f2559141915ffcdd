//! An immutable open-addressing hash map whose control bytes and slots are
//! laid out once at build time, together with the checks that certify
//! untrusted tables and shared or weak pointers before they are read.

pub mod builder;
pub mod hash;
pub mod layout;
pub mod probe;
pub mod rc;
pub mod swiss_table;
