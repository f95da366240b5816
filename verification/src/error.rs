use vstd::prelude::*;

verus! {

/// How a decode can fail. Decoding either fully succeeds or fails as a
/// whole: no partial image is ever returned.
#[derive(Clone, Copy, Debug, PartialEq, Eq, Structural)]
pub enum DecodeError {
    /// Signature mismatch, truncated header fields, or an unsupported
    /// precision or segment layout.
    MalformedHeader,
    /// A scan references a quantization or Huffman table id that was never
    /// defined.
    MissingTable,
    /// No Huffman code matched the next 16 bits, or a block could not be
    /// filled to exactly 64 coefficients.
    EntropyDecodeFailure,
    /// Restart intervals, non-baseline encodings, sampling factors other
    /// than 1 or 2, or component counts other than 1 or 3.
    UnsupportedFeature,
    /// A byte pair at an expected marker position matches no known marker.
    UnrecognizedMarker,
}

} // verus!
