//! Error kinds shared by every decoding and editing operation.

use vstd::prelude::*;

verus! {

/// What went wrong while decoding or editing an image.
#[derive(Clone, Copy, PartialEq, Eq, Structural, Debug)]
pub enum ErrorKind {
    /// The DIB header size or the pixel format has no supported handling.
    Unsupported,
    /// A requested structure (color table, masks, pixel) is absent or out of
    /// bounds for this file.
    DoesNotExist,
    /// The buffer is not a BMP file.
    WrongFileType,
    /// A color table was requested where bitfield masks apply instead.
    UseExtraBitMasks,
    /// Writing the buffer out failed.
    FailedToWrite,
    /// A blur or filter radius of 0 or above 16 was asked for.
    RadiusInvalid,
    /// A required precomputed structure was not supplied.
    Missing,
}

impl ErrorKind {
    /// A short human-readable description of the error.
    pub fn as_str(&self) -> (r: &'static str)
        ensures
            r@ =~= match *self {
                ErrorKind::Unsupported => "File is unsupported"@,
                ErrorKind::DoesNotExist => "Requested object does not exist"@,
                ErrorKind::WrongFileType => "Wrong file type. Must be a .bmp file"@,
                ErrorKind::UseExtraBitMasks => "Use extra bit masks instead"@,
                ErrorKind::FailedToWrite => "Failed to write to file"@,
                ErrorKind::RadiusInvalid => "Blur/filter radius is invalid since bigger than 16 or is 0"@,
                ErrorKind::Missing => "Missing expected parameter or object"@,
            },
    {
        match *self {
            ErrorKind::Unsupported => "File is unsupported",
            ErrorKind::DoesNotExist => "Requested object does not exist",
            ErrorKind::WrongFileType => "Wrong file type. Must be a .bmp file",
            ErrorKind::UseExtraBitMasks => "Use extra bit masks instead",
            ErrorKind::FailedToWrite => "Failed to write to file",
            ErrorKind::RadiusInvalid => "Blur/filter radius is invalid since bigger than 16 or is 0",
            ErrorKind::Missing => "Missing expected parameter or object",
        }
    }
}

} // verus!
