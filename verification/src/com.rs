use vstd::prelude::*;

verus! {

/// The closed set of failure kinds the decoder can report.
///
/// `More` is not a true error: it asks the caller to feed more bytes and
/// retry the identical call. Every other kind is fatal for the stream,
/// because the length-prefixed grammar offers no safe resynchronization
/// point once a read has failed mid-structure.
#[derive(Debug, Clone, PartialEq, Eq)]
pub enum BeeError {
    /// More data is needed in the buffer; retry after feeding bytes.
    More,
    /// The stream does not start with the fixed magic literal; carries the
    /// five bytes that were found instead.
    BadMagicString { head: Vec<u8> },
    /// The four-digit format version is out of the supported range (or not
    /// made of decimal digits, reported as version 0).
    BadVersion { version: u64 },
    /// A byte that should start a length field selects no known length
    /// class.
    NotNumber,
    /// A special string-encoding selector whose low six bits match no known
    /// string encoding, or a packed integer-set payload whose header does
    /// not describe its contents.
    InvalidEncodingSelector { selector: u8 },
    /// A compressed string payload failed to decompress to exactly the
    /// declared uncompressed length.
    CompressionFailure,
    /// A value-type tag or control opcode whose payload has no decoder
    /// here; skipping it blindly would desynchronize the stream.
    UnsupportedFeature { tag: u8 },
}

/// The mathematical image of a `BeeError`, with byte strings as sequences.
pub enum ErrModel {
    More,
    BadMagicString { head: Seq<u8> },
    BadVersion { version: u64 },
    NotNumber,
    InvalidEncodingSelector { selector: u8 },
    CompressionFailure,
    UnsupportedFeature { tag: u8 },
}

impl View for BeeError {
    type V = ErrModel;

    open spec fn view(&self) -> ErrModel {
        match self {
            BeeError::More => ErrModel::More,
            BeeError::BadMagicString { head } => ErrModel::BadMagicString { head: head@ },
            BeeError::BadVersion { version } => ErrModel::BadVersion { version: *version },
            BeeError::NotNumber => ErrModel::NotNumber,
            BeeError::InvalidEncodingSelector { selector } => ErrModel::InvalidEncodingSelector {
                selector: *selector,
            },
            BeeError::CompressionFailure => ErrModel::CompressionFailure,
            BeeError::UnsupportedFeature { tag } => ErrModel::UnsupportedFeature { tag: *tag },
        }
    }
}

} // verus!
