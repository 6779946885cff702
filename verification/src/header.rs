//! The header block: a 4-byte little-endian length, then that many bytes of
//! JSON that describe the directory tree.

use vstd::prelude::*;
use vstd::slice::slice_subrange;
use crate::error::{ArchiveError, Failure};
use crate::json::{json_document, parse};
use crate::tree::{header_root, header_tree, Node, Tree};

verus! {

/// The number of bytes that the length prefix occupies.
pub const PREFIX_WIDTH: usize = 4;

/// The number that the first four of `bytes` spell, least significant byte
/// first.
pub open spec fn le_u32(bytes: Seq<u8>) -> int {
    bytes[0] + 0x100 * bytes[1] + 0x1_0000 * bytes[2] + 0x100_0000 * bytes[3]
}

/// `byteorder::ByteOrder::read_u32` of `byteorder::LittleEndian`. It reads
/// the first four bytes of `bytes` as a little-endian number, and panics
/// where there are fewer than four.
#[verifier::external_body]
fn read_u32_le(bytes: &[u8]) -> (value: u32)
    requires
        bytes@.len() >= 4,
    ensures
        value == le_u32(bytes@),
{
    <byteorder::LittleEndian as byteorder::ByteOrder>::read_u32(bytes)
}

/// Whether `stream` holds its length prefix and all of the header that the
/// prefix declares.
pub open spec fn header_complete(stream: Seq<u8>) -> bool {
    stream.len() >= PREFIX_WIDTH && stream.len() >= PREFIX_WIDTH + le_u32(stream)
}

/// The header bytes of a stream that holds all of them.
pub open spec fn header_text(stream: Seq<u8>) -> Seq<u8> {
    stream.subrange(PREFIX_WIDTH as int, PREFIX_WIDTH + le_u32(stream))
}

/// Where the data region of a stream with a complete header starts.
pub open spec fn data_start(stream: Seq<u8>) -> int {
    PREFIX_WIDTH + le_u32(stream)
}

/// A decoded header: the root directory of the tree, and the header's length
/// in bytes.
#[derive(Debug, PartialEq, Eq)]
pub struct Header {
    pub root: Node,
    pub length: u32,
}

impl Header {
    /// The position in the stream at which the data region starts.
    pub fn base_offset(&self) -> (base: u64)
        ensures
            base == PREFIX_WIDTH + self.length,
    {
        self.length as u64 + PREFIX_WIDTH as u64
    }
}

/// What decoding the header of `stream` gives: `TruncatedHeader` where the
/// stream is shorter than the prefix or than the header it declares,
/// `MalformedHeader` where the header bytes are no JSON document, else the
/// root directory with the declared length.
pub open spec fn decoded(stream: Seq<u8>) -> Result<(Tree, u32), Failure> {
    if !header_complete(stream) {
        Err(Failure::TruncatedHeader)
    } else {
        match json_document(header_text(stream)) {
            None => Err(Failure::MalformedHeader),
            Some(document) => Ok((header_tree(document), le_u32(stream) as u32)),
        }
    }
}

/// Reads the length prefix of `stream`, or nothing where the stream is
/// shorter than the prefix.
pub fn read_length(stream: &[u8]) -> (length: Option<u32>)
    ensures
        match length {
            Some(declared) => stream@.len() >= PREFIX_WIDTH && declared == le_u32(stream@),
            None => stream@.len() < PREFIX_WIDTH,
        },
{
    if stream.len() < PREFIX_WIDTH {
        None
    } else {
        Some(read_u32_le(stream))
    }
}

/// Decodes the header at the start of `stream`.
pub fn decode_header(stream: &[u8]) -> (r: Result<Header, ArchiveError>)
    ensures
        match r {
            Ok(header) => decoded(stream@) == Ok::<(Tree, u32), Failure>(
                (header.root@, header.length),
            ),
            Err(e) => decoded(stream@) == Err::<(Tree, u32), Failure>(e@),
        },
{
    let length = match read_length(stream) {
        Some(length) => length,
        None => {
            return Err(ArchiveError::TruncatedHeader);
        },
    };
    let remaining = (stream.len() - PREFIX_WIDTH) as u64;
    if remaining < (length as u64) {
        return Err(ArchiveError::TruncatedHeader);
    }
    let text = slice_subrange(stream, PREFIX_WIDTH, PREFIX_WIDTH + length as usize);
    match parse(text) {
        Some(document) => Ok(Header { root: header_root(&document), length }),
        None => Err(ArchiveError::MalformedHeader),
    }
}

} // verus!
