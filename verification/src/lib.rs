//! In-memory reader, editor and writer for uncompressed Windows BMP images.
//!
//! An image is a single byte buffer holding the 14-byte file header, a
//! size-discriminated DIB header (12/40/108/124 bytes), an optional palette
//! and the pixel rows.  Every operation decodes what it needs from the buffer
//! and writes pixels back in place; contracts pin the byte layout down
//! exactly.

pub mod errors;

pub mod raw;

pub mod header;

pub mod plane;

pub mod table;

pub mod image;

pub mod write;

pub mod create;

pub mod ops;

pub mod draw;

pub mod fill;

pub mod ellipse;

pub mod diff;

pub mod blur;

pub mod filter;

pub mod imgops;

pub mod color;

pub mod bmp;
