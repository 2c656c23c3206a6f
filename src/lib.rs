pub mod encoding;
pub mod header;
pub mod keyslot;
pub mod object;
pub mod primitives;
pub mod protocol;
