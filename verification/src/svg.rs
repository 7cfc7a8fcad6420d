//! Parsing of the SVG images that the icons are rendered from.

use vstd::prelude::*;

use resvg::usvg::{Options, Tree};
use vstd::utf8::valid_utf8;

verus! {

#[verifier::external_type_specification]
#[verifier::external_body]
pub struct ExSvgTree(Tree);

/// Why SVG data could not be parsed, one variant for each way usvg
/// refuses it.
#[derive(Clone, Copy, Debug, PartialEq, Eq, Structural)]
pub enum SvgError {
    /// The data is not UTF-8 text.
    NotAnUtf8Str,
    /// The data is gzip-compressed and decompression is not built in.
    SvgzFeatureNotEnabled,
    /// The data starts as gzip but does not decompress.
    MalformedGZip,
    /// The document has too many elements.
    ElementsLimitReached,
    /// The document has no valid size.
    InvalidSize,
    /// The text is not a well-formed XML document.
    ParsingFailed,
}

/// Whether `data` starts with the two bytes that mark gzip-compressed data.
pub open spec fn is_gzip(data: Seq<u8>) -> bool {
    data.len() >= 2 && data[0] == 0x1f && data[1] == 0x8b
}

/// Calls usvg's `Tree::from_data` with default options and gives its error
/// as the matching `SvgError` variant. Claimed of it: data that is neither
/// gzip-compressed nor UTF-8 is refused as not UTF-8, as its source checks
/// before anything else. Which tree comes out, and which other data is
/// refused, is left unsaid: usvg's default options read the image files that
/// the document names.
#[verifier::external_body]
fn tree_from_data(data: &[u8]) -> (res: Result<Tree, SvgError>)
    ensures
        !is_gzip(data@) && !valid_utf8(data@) ==> res matches Err(SvgError::NotAnUtf8Str),
{
    match Tree::from_data(data, &Options::default()) {
        Ok(tree) => Ok(tree),
        Err(resvg::usvg::Error::NotAnUtf8Str) => Err(SvgError::NotAnUtf8Str),
        Err(resvg::usvg::Error::SvgzFeatureNotEnabled) => Err(SvgError::SvgzFeatureNotEnabled),
        Err(resvg::usvg::Error::MalformedGZip) => Err(SvgError::MalformedGZip),
        Err(resvg::usvg::Error::ElementsLimitReached) => Err(SvgError::ElementsLimitReached),
        Err(resvg::usvg::Error::InvalidSize) => Err(SvgError::InvalidSize),
        Err(resvg::usvg::Error::ParsingFailed(_)) => Err(SvgError::ParsingFailed),
    }
}

/// Parses SVG data, plain or gzip-compressed, into a tree with the default
/// options. Data that is neither gzip-compressed nor UTF-8 text is refused
/// with `NotAnUtf8Str`.
pub fn parse_svg(data: &[u8]) -> (res: Result<Tree, SvgError>)
    ensures
        !is_gzip(data@) && !valid_utf8(data@) ==> res matches Err(SvgError::NotAnUtf8Str),
{
    tree_from_data(data)
}

} // verus!
