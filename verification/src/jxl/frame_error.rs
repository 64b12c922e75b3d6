//! Errors of frame decoding.
use crate::jxl::error::{BitstreamError, CodingError, ModularError, OutOfMemory, VardctError};
use crate::text::joined;
use vstd::prelude::*;
use vstd::string::StringExecFns;

verus! {

#[derive(Debug, Clone, Copy)]
#[non_exhaustive]
pub enum Error {
    Bitstream(BitstreamError),
    Decoder(CodingError),
    Buffer(OutOfMemory),
    Modular(ModularError),
    VarDct(VardctError),
    InvalidTocPermutation,
    IncompleteFrameData { field: &'static str },
    OutOfMemory,
    HadError,
}

impl Error {
    /// The bitstream error at the root of this error.
    pub open spec fn root(&self) -> Option<BitstreamError> {
        match *self {
            Error::Bitstream(b) => Some(b),
            Error::Decoder(CodingError::Bitstream(b)) => Some(b),
            Error::Modular(ModularError::Bitstream(b)) => Some(b),
            Error::Modular(ModularError::Decoder(CodingError::Bitstream(b))) => Some(b),
            Error::VarDct(VardctError::Bitstream(b)) => Some(b),
            Error::VarDct(VardctError::Decoder(CodingError::Bitstream(b))) => Some(b),
            Error::VarDct(VardctError::Modular(ModularError::Bitstream(b))) => Some(b),
            Error::VarDct(
                VardctError::Modular(ModularError::Decoder(CodingError::Bitstream(b))),
            ) => Some(b),
            _ => None,
        }
    }

    pub open spec fn is_eof(&self) -> bool {
        self.root() is Some && self.root()->Some_0.is_eof()
    }

    /// Whether the error comes from a bitstream that ended too early.
    pub fn unexpected_eof(&self) -> (r: bool)
        ensures
            r == self.is_eof(),
    {
        match self {
            Error::Bitstream(b) => b.unexpected_eof(),
            Error::Decoder(d) => d.unexpected_eof(),
            Error::Modular(m) => m.unexpected_eof(),
            Error::VarDct(v) => v.unexpected_eof(),
            _ => false,
        }
    }

    /// The text of this error, given that of the error within it.
    pub open spec fn text(&self, inner: Seq<char>) -> Seq<char> {
        match *self {
            Error::Bitstream(_) => "bitstream error: "@ + inner,
            Error::Decoder(_) => "entropy decoder error: "@ + inner,
            Error::Buffer(_) => inner,
            Error::Modular(_) => "modular stream error: "@ + inner,
            Error::VarDct(_) => "vardct error: "@ + inner,
            Error::InvalidTocPermutation => "invalid TOC permutation"@,
            Error::OutOfMemory => "out of memory"@,
            Error::HadError => "previous parsing errored"@,
            Error::IncompleteFrameData { field } => "incomplete frame data: "@ + field@
                + " is missing"@,
        }
    }

    /// The text of this error, given that of the error within it.
    pub fn message(&self, inner: &str) -> (r: String)
        ensures
            r@ == self.text(inner@),
    {
        match self {
            Error::Bitstream(_) => joined("bitstream error: ", inner),
            Error::Decoder(_) => joined("entropy decoder error: ", inner),
            Error::Buffer(_) => inner.to_owned(),
            Error::Modular(_) => joined("modular stream error: ", inner),
            Error::VarDct(_) => joined("vardct error: ", inner),
            Error::InvalidTocPermutation => "invalid TOC permutation".to_owned(),
            Error::OutOfMemory => "out of memory".to_owned(),
            Error::HadError => "previous parsing errored".to_owned(),
            Error::IncompleteFrameData { field } => {
                let mut r: String = joined("incomplete frame data: ", field);
                r.append(" is missing");
                r
            },
        }
    }
}

impl From<BitstreamError> for Error {
    fn from(err: BitstreamError) -> (r: Self) {
        Error::Bitstream(err)
    }
}

impl vstd::std_specs::convert::FromSpecImpl<BitstreamError> for Error {
    open spec fn obeys_from_spec() -> bool {
        true
    }

    open spec fn from_spec(err: BitstreamError) -> Self {
        Error::Bitstream(err)
    }
}

impl From<CodingError> for Error {
    fn from(err: CodingError) -> (r: Self) {
        Error::Decoder(err)
    }
}

impl vstd::std_specs::convert::FromSpecImpl<CodingError> for Error {
    open spec fn obeys_from_spec() -> bool {
        true
    }

    open spec fn from_spec(err: CodingError) -> Self {
        Error::Decoder(err)
    }
}

impl From<OutOfMemory> for Error {
    fn from(err: OutOfMemory) -> (r: Self) {
        Error::Buffer(err)
    }
}

impl vstd::std_specs::convert::FromSpecImpl<OutOfMemory> for Error {
    open spec fn obeys_from_spec() -> bool {
        true
    }

    open spec fn from_spec(err: OutOfMemory) -> Self {
        Error::Buffer(err)
    }
}

impl From<ModularError> for Error {
    fn from(err: ModularError) -> (r: Self) {
        Error::Modular(err)
    }
}

impl vstd::std_specs::convert::FromSpecImpl<ModularError> for Error {
    open spec fn obeys_from_spec() -> bool {
        true
    }

    open spec fn from_spec(err: ModularError) -> Self {
        Error::Modular(err)
    }
}

impl From<VardctError> for Error {
    fn from(err: VardctError) -> (r: Self) {
        Error::VarDct(err)
    }
}

impl vstd::std_specs::convert::FromSpecImpl<VardctError> for Error {
    open spec fn obeys_from_spec() -> bool {
        true
    }

    open spec fn from_spec(err: VardctError) -> Self {
        Error::VarDct(err)
    }
}

/// Wrapping an error of transform-coded data keeps whether the data ended too early.
pub proof fn lemma_wrapped_eof(e: VardctError)
    ensures
        Error::VarDct(e).is_eof() == e.is_eof(),
{
}

pub type Result<T> = core::result::Result<T, Error>;

} // verus!
