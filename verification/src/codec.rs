//! The compressions that region files use.
use std::io::Read;

use flate2::read::{GzDecoder, ZlibDecoder};
use lz4_flex::frame::FrameDecoder;
use vstd::prelude::*;

verus! {

/// A compression.
#[derive(Clone, Copy, Debug, PartialEq, Eq, Structural)]
pub enum Codec {
    Gzip,
    Zlib,
    Lz4,
    Zstd,
}

/// The error of a reader: opaque, and handed on as the cause of a decoding fault.
#[verifier::external_type_specification]
#[verifier::external_body]
pub struct ExIoError(std::io::Error);

/// What the gzip member at the start of `data` decodes to; `None` where the decoder fails.
pub uninterp spec fn gzip_decoded(data: Seq<u8>) -> Option<Seq<u8>>;

/// What the zlib stream at the start of `data` decodes to; `None` where the decoder fails.
pub uninterp spec fn zlib_decoded(data: Seq<u8>) -> Option<Seq<u8>>;

/// What the lz4 frame at the start of `data` decodes to; `None` where the decoder fails.
pub uninterp spec fn lz4_decoded(data: Seq<u8>) -> Option<Seq<u8>>;

/// What the zstd frames of `data` decode to; `None` where the decoder fails.
pub uninterp spec fn zstd_decoded(data: Seq<u8>) -> Option<Seq<u8>>;

/// What `data` decodes to.
pub open spec fn decoded(codec: Codec, data: Seq<u8>) -> Option<Seq<u8>> {
    match codec {
        Codec::Gzip => gzip_decoded(data),
        Codec::Zlib => zlib_decoded(data),
        Codec::Lz4 => lz4_decoded(data),
        Codec::Zstd => zstd_decoded(data),
    }
}

/// `flate2::read::GzDecoder` over `data`, read to its end. The content that comes out,
/// or that an error does, depends on the bytes alone.
#[verifier::external_body]
fn gunzip(data: &[u8]) -> (r: Result<Vec<u8>, std::io::Error>)
    ensures
        match r {
            Ok(out) => gzip_decoded(data@) == Some(out@),
            Err(_) => gzip_decoded(data@) is None,
        },
{
    let mut out = Vec::new();
    GzDecoder::new(data).read_to_end(&mut out)?;
    Ok(out)
}

/// `flate2::read::ZlibDecoder` over `data`, read to its end. The content that comes out,
/// or that an error does, depends on the bytes alone.
#[verifier::external_body]
fn unzlib(data: &[u8]) -> (r: Result<Vec<u8>, std::io::Error>)
    ensures
        match r {
            Ok(out) => zlib_decoded(data@) == Some(out@),
            Err(_) => zlib_decoded(data@) is None,
        },
{
    let mut out = Vec::new();
    ZlibDecoder::new(data).read_to_end(&mut out)?;
    Ok(out)
}

/// `lz4_flex::frame::FrameDecoder` over `data`, read to its end. The content that comes
/// out, or that an error does, depends on the bytes alone.
#[verifier::external_body]
fn unlz4(data: &[u8]) -> (r: Result<Vec<u8>, std::io::Error>)
    ensures
        match r {
            Ok(out) => lz4_decoded(data@) == Some(out@),
            Err(_) => lz4_decoded(data@) is None,
        },
{
    let mut out = Vec::new();
    FrameDecoder::new(data).read_to_end(&mut out)?;
    Ok(out)
}

/// `zstd::decode_all` over `data`. The content that comes out, or that an error does,
/// depends on the bytes alone.
#[verifier::external_body]
fn unzstd(data: &[u8]) -> (r: Result<Vec<u8>, std::io::Error>)
    ensures
        match r {
            Ok(out) => zstd_decoded(data@) == Some(out@),
            Err(_) => zstd_decoded(data@) is None,
        },
{
    zstd::decode_all(data)
}

/// Decodes `data`.
pub fn decode(codec: Codec, data: &[u8]) -> (r: Result<Vec<u8>, std::io::Error>)
    ensures
        match r {
            Ok(out) => decoded(codec, data@) == Some(out@),
            Err(_) => decoded(codec, data@) is None,
        },
{
    match codec {
        Codec::Gzip => gunzip(data),
        Codec::Zlib => unzlib(data),
        Codec::Lz4 => unlz4(data),
        Codec::Zstd => unzstd(data),
    }
}

} // verus!
