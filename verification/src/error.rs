//! The single flat error taxonomy of the library.

use vstd::prelude::*;

verus! {

/// One kind per observable class of fault.  Errors propagate to the caller
/// unchanged; nothing is masked or retried.
#[derive(Debug, Clone, Copy, PartialEq, Eq, Structural)]
pub enum Error {
    /// Buffer too small or misaligned for record reinterpretation.
    Transmute,
    /// Keystore index-set header magic mismatch or offsets not monotone.
    KeyIndexHeaderValidate,
    /// Keystore file header magic mismatch.
    KeyFileHeaderValidate,
    FopenError,
    FstatError,
    MmapError,
    /// The decompression engine rejected the stream.
    ZlibError,
    /// Bytes expected to be text are not valid UTF-8.
    Utf8Error,
    RecordTooLarge,
    /// File size or zlib residue disagrees with a declared length.
    IncorrectStreamLength,
    /// A four-byte read past the end of a slice.
    BufferTooSmall,
    /// An item-index map index points outside the map array.
    IndexMismach,
    /// Key or id absent from its index.
    NotFound,
    /// Dictionary descriptor missing.
    NoDictJsonFound,
    /// Dictionary descriptor structurally wrong.
    InvalidDictJson,
    /// Any underlying filesystem operation failed.
    IOError,
    /// Segment sequence has gaps or a wrong start.
    MissingResourceFile,
    /// An internal index pointer is out of range or misaligned.
    InvalidIndex,
    /// NRSC format field outside the known set.
    InvalidAudioFormat,
    /// Caller asked for an absent optional media subtree.
    MissingMedia,
    InvalidArg,
    InvalidSubcommand,
    FmtError,
    /// Caller asked for a key ordering the keystore does not carry.
    IndexDoesntExist,
}

} // verus!
