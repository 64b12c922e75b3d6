//! Errors of rendering.
use crate::jxl::error::{BitstreamError, CodingError, ColorError, ModularError, OutOfMemory};
use crate::jxl::frame_error;
use crate::text::{decimal, joined, push_decimal};
use vstd::prelude::*;

verus! {

#[derive(Debug, Clone, Copy)]
#[non_exhaustive]
pub enum Error {
    Bitstream(BitstreamError),
    Decoder(CodingError),
    Buffer(OutOfMemory),
    Modular(ModularError),
    Frame(frame_error::Error),
    Color(ColorError),
    IncompleteFrame,
    FailedReference,
    UninitializedLfFrame(u32),
    InvalidReference(u32),
    NotReady,
    NotSupported(&'static str),
}

impl Error {
    pub open spec fn is_eof(&self) -> bool {
        match *self {
            Error::Bitstream(e) => e.is_eof(),
            Error::Decoder(e) => e.is_eof(),
            Error::Modular(e) => e.is_eof(),
            Error::Frame(e) => e.is_eof(),
            Error::Color(e) => e.is_eof(),
            _ => false,
        }
    }

    /// Whether the error comes from a bitstream that ended too early.
    pub fn unexpected_eof(&self) -> (r: bool)
        ensures
            r == self.is_eof(),
    {
        match self {
            Error::Bitstream(e) => e.unexpected_eof(),
            Error::Decoder(e) => e.unexpected_eof(),
            Error::Modular(e) => e.unexpected_eof(),
            Error::Frame(e) => e.unexpected_eof(),
            Error::Color(e) => e.unexpected_eof(),
            _ => false,
        }
    }

    /// The text of this error, given that of the error within it.
    pub open spec fn text(&self, inner: Seq<char>) -> Seq<char> {
        match *self {
            Error::Bitstream(_) => "bitstream error: "@ + inner,
            Error::Decoder(_) => "entropy decoder error: "@ + inner,
            Error::Buffer(_) => inner,
            Error::Modular(_) => "modular subimage decode error: "@ + inner,
            Error::Frame(_) => "frame error: "@ + inner,
            Error::Color(_) => "color management error: "@ + inner,
            Error::IncompleteFrame => "frame data is incomplete"@,
            Error::FailedReference => "reference frame failed to render"@,
            Error::NotReady => "image is not ready to be rendered"@,
            Error::UninitializedLfFrame(level) => "uninitialized LF frame for level "@ + decimal(
                level as nat,
            ),
            Error::InvalidReference(idx) => "invalid reference "@ + decimal(idx as nat),
            Error::NotSupported(what) => "not supported: "@ + what@,
        }
    }

    /// The text of this error, given that of the error within it.
    pub fn message(&self, inner: &str) -> (r: String)
        ensures
            r@ == self.text(inner@),
    {
        match self {
            Error::Bitstream(_) => joined("bitstream error: ", inner),
            Error::Decoder(_) => joined("entropy decoder error: ", inner),
            Error::Buffer(_) => inner.to_owned(),
            Error::Modular(_) => joined("modular subimage decode error: ", inner),
            Error::Frame(_) => joined("frame error: ", inner),
            Error::Color(_) => joined("color management error: ", inner),
            Error::IncompleteFrame => "frame data is incomplete".to_owned(),
            Error::FailedReference => "reference frame failed to render".to_owned(),
            Error::NotReady => "image is not ready to be rendered".to_owned(),
            Error::UninitializedLfFrame(level) => {
                let mut r: String = "uninitialized LF frame for level ".to_owned();
                push_decimal(&mut r, *level as usize);
                r
            },
            Error::InvalidReference(idx) => {
                let mut r: String = "invalid reference ".to_owned();
                push_decimal(&mut r, *idx as usize);
                r
            },
            Error::NotSupported(what) => joined("not supported: ", what),
        }
    }
}

impl From<BitstreamError> for Error {
    fn from(err: BitstreamError) -> (r: Self) {
        Error::Bitstream(err)
    }
}

impl vstd::std_specs::convert::FromSpecImpl<BitstreamError> for Error {
    open spec fn obeys_from_spec() -> bool {
        true
    }

    open spec fn from_spec(err: BitstreamError) -> Self {
        Error::Bitstream(err)
    }
}

impl From<CodingError> for Error {
    fn from(err: CodingError) -> (r: Self) {
        Error::Decoder(err)
    }
}

impl vstd::std_specs::convert::FromSpecImpl<CodingError> for Error {
    open spec fn obeys_from_spec() -> bool {
        true
    }

    open spec fn from_spec(err: CodingError) -> Self {
        Error::Decoder(err)
    }
}

impl From<OutOfMemory> for Error {
    fn from(err: OutOfMemory) -> (r: Self) {
        Error::Buffer(err)
    }
}

impl vstd::std_specs::convert::FromSpecImpl<OutOfMemory> for Error {
    open spec fn obeys_from_spec() -> bool {
        true
    }

    open spec fn from_spec(err: OutOfMemory) -> Self {
        Error::Buffer(err)
    }
}

impl From<ModularError> for Error {
    fn from(err: ModularError) -> (r: Self) {
        Error::Modular(err)
    }
}

impl vstd::std_specs::convert::FromSpecImpl<ModularError> for Error {
    open spec fn obeys_from_spec() -> bool {
        true
    }

    open spec fn from_spec(err: ModularError) -> Self {
        Error::Modular(err)
    }
}

impl From<frame_error::Error> for Error {
    fn from(err: frame_error::Error) -> (r: Self) {
        Error::Frame(err)
    }
}

impl vstd::std_specs::convert::FromSpecImpl<frame_error::Error> for Error {
    open spec fn obeys_from_spec() -> bool {
        true
    }

    open spec fn from_spec(err: frame_error::Error) -> Self {
        Error::Frame(err)
    }
}

impl From<ColorError> for Error {
    fn from(err: ColorError) -> (r: Self) {
        Error::Color(err)
    }
}

impl vstd::std_specs::convert::FromSpecImpl<ColorError> for Error {
    open spec fn obeys_from_spec() -> bool {
        true
    }

    open spec fn from_spec(err: ColorError) -> Self {
        Error::Color(err)
    }
}

pub type Result<T> = core::result::Result<T, Error>;

} // verus!
