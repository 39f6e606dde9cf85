pub mod forest;
pub mod layout;
pub mod text;
pub mod wad;
pub mod zlib;
