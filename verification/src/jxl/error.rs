//! Errors of the JPEG XL bitstream, entropy decoder and image parts.
use vstd::prelude::*;

verus! {

/// Kinds of input errors.
#[derive(Debug, Clone, Copy, PartialEq, Eq, Structural)]
pub enum IoErrorKind {
    UnexpectedEof,
    Other,
}

#[derive(Debug, Clone, Copy)]
pub enum BitstreamError {
    Io(IoErrorKind),
    ValidationFailed(&'static str),
    NonZeroPadding,
    InvalidFloat,
    InvalidEnum { name: &'static str, value: u32 },
    ProfileConformance(&'static str),
    CannotSkip,
    NotAligned,
}

impl BitstreamError {
    pub open spec fn is_eof(&self) -> bool {
        *self matches BitstreamError::Io(kind) && kind == IoErrorKind::UnexpectedEof
    }

    /// Whether the bitstream ended too early.
    pub fn unexpected_eof(&self) -> (r: bool)
        ensures
            r == self.is_eof(),
    {
        match self {
            BitstreamError::Io(kind) => *kind == IoErrorKind::UnexpectedEof,
            _ => false,
        }
    }
}

/// Errors of the entropy decoder.
#[derive(Debug, Clone, Copy)]
pub enum CodingError {
    Bitstream(BitstreamError),
    InvalidCode(&'static str),
}

impl CodingError {
    pub open spec fn is_eof(&self) -> bool {
        *self matches CodingError::Bitstream(b) && b.is_eof()
    }

    pub fn unexpected_eof(&self) -> (r: bool)
        ensures
            r == self.is_eof(),
    {
        match self {
            CodingError::Bitstream(b) => b.unexpected_eof(),
            _ => false,
        }
    }
}

/// An allocation that does not fit: the number of bytes asked for.
#[derive(Debug, Clone, Copy)]
pub struct OutOfMemory(pub usize);

/// Errors of modular-coded images.
#[derive(Debug, Clone, Copy)]
pub enum ModularError {
    Bitstream(BitstreamError),
    Decoder(CodingError),
    Buffer(OutOfMemory),
    InvalidParameters(&'static str),
}

impl ModularError {
    pub open spec fn is_eof(&self) -> bool {
        match *self {
            ModularError::Bitstream(b) => b.is_eof(),
            ModularError::Decoder(d) => d.is_eof(),
            _ => false,
        }
    }

    pub fn unexpected_eof(&self) -> (r: bool)
        ensures
            r == self.is_eof(),
    {
        match self {
            ModularError::Bitstream(b) => b.unexpected_eof(),
            ModularError::Decoder(d) => d.unexpected_eof(),
            _ => false,
        }
    }
}

/// Errors of transform-coded images.
#[derive(Debug, Clone, Copy)]
pub enum VardctError {
    Bitstream(BitstreamError),
    Decoder(CodingError),
    Buffer(OutOfMemory),
    Modular(ModularError),
}

impl VardctError {
    pub open spec fn is_eof(&self) -> bool {
        match *self {
            VardctError::Bitstream(b) => b.is_eof(),
            VardctError::Decoder(d) => d.is_eof(),
            VardctError::Modular(m) => m.is_eof(),
            VardctError::Buffer(_) => false,
        }
    }

    pub fn unexpected_eof(&self) -> (r: bool)
        ensures
            r == self.is_eof(),
    {
        match self {
            VardctError::Bitstream(b) => b.unexpected_eof(),
            VardctError::Decoder(d) => d.unexpected_eof(),
            VardctError::Modular(m) => m.unexpected_eof(),
            VardctError::Buffer(_) => false,
        }
    }
}

/// Errors of color management.
#[derive(Debug, Clone, Copy)]
pub enum ColorError {
    Bitstream(BitstreamError),
    Decoder(CodingError),
    Unsupported(&'static str),
}

impl ColorError {
    pub open spec fn is_eof(&self) -> bool {
        match *self {
            ColorError::Bitstream(b) => b.is_eof(),
            ColorError::Decoder(d) => d.is_eof(),
            ColorError::Unsupported(_) => false,
        }
    }

    pub fn unexpected_eof(&self) -> (r: bool)
        ensures
            r == self.is_eof(),
    {
        match self {
            ColorError::Bitstream(b) => b.unexpected_eof(),
            ColorError::Decoder(d) => d.unexpected_eof(),
            ColorError::Unsupported(_) => false,
        }
    }
}

} // verus!
