//! Compression of stored contents, by zstd.

use vstd::prelude::*;
use crate::error::EngineError;

verus! {

/// `std::io::Error`, the error of the compressor. Nothing of it is read
/// here but its text.
#[verifier::external_type_specification]
#[verifier::external_body]
pub struct ExIoError(std::io::Error);

/// The compression level of stored blobs: low, chosen for speed.
pub const COMPRESSION_LEVEL: i32 = 3;

/// What `frame` decompresses to: the content, or nothing where the
/// decompressor turns the frame down.
pub uninterp spec fn frame_content(frame: Seq<u8>) -> Option<Seq<u8>>;

/// The frame that `data` compresses to at the level `level`, or nothing
/// where the compressor fails on it.
pub uninterp spec fn packed(data: Seq<u8>, level: int) -> Option<Seq<u8>>;

/// `zstd::stream::encode_all` on a byte slice. What it returns depends on
/// the data and the level alone. Compression is lossless: a frame that it
/// returns decompresses to the data that went in.
#[verifier::external_body]
fn zstd_encode(data: &[u8], level: i32) -> (outcome: Result<Vec<u8>, std::io::Error>)
    ensures
        match outcome {
            Ok(frame) => packed(data@, level as int) == Some(frame@) && frame_content(frame@)
                == Some(data@),
            Err(_) => packed(data@, level as int) is None,
        },
{
    zstd::stream::encode_all(data, level)
}

/// `zstd::stream::decode_all` on a byte slice. What it returns depends on
/// the frame alone: the content, or an error where the frame is none that
/// it reads.
#[verifier::external_body]
fn zstd_decode(frame: &[u8]) -> (outcome: Result<Vec<u8>, std::io::Error>)
    ensures
        match outcome {
            Ok(data) => frame_content(frame@) == Some(data@),
            Err(_) => frame_content(frame@) is None,
        },
{
    zstd::stream::decode_all(frame)
}

/// The text of an I/O error, as `to_string` gives it.
#[verifier::external_body]
fn io_error_text(error: &std::io::Error) -> (text: String) {
    error.to_string()
}

/// What a compression attempt means for the store: the frame, or an I/O
/// failure with the compressor's report.
pub fn frame_or_failure(outcome: Result<Vec<u8>, std::io::Error>) -> (frame: Result<
    Vec<u8>,
    EngineError,
>)
    ensures
        match outcome {
            Ok(bytes) => frame == Ok::<Vec<u8>, EngineError>(bytes),
            Err(_) => frame matches Err(EngineError::Io(_)),
        },
{
    match outcome {
        Ok(bytes) => Ok(bytes),
        Err(error) => Err(EngineError::Io(io_error_text(&error))),
    }
}

/// What a decompression attempt means for the store: the content, or a
/// corrupt blob. A failure is never passed off as a missing record.
pub fn content_or_corrupt(outcome: Result<Vec<u8>, std::io::Error>) -> (content: Result<
    Vec<u8>,
    EngineError,
>)
    ensures
        match outcome {
            Ok(bytes) => content == Ok::<Vec<u8>, EngineError>(bytes),
            Err(_) => content == Err::<Vec<u8>, EngineError>(EngineError::CorruptBlob),
        },
{
    match outcome {
        Ok(bytes) => Ok(bytes),
        Err(_) => Err(EngineError::CorruptBlob),
    }
}

/// Compresses `data` into a frame that decompresses to it. Fails exactly
/// where the compressor has no frame for the data.
pub fn compress(data: &[u8]) -> (frame: Result<Vec<u8>, EngineError>)
    ensures
        match frame {
            Ok(bytes) => packed(data@, COMPRESSION_LEVEL as int) == Some(bytes@)
                && frame_content(bytes@) == Some(data@),
            Err(error) => error is Io && packed(data@, COMPRESSION_LEVEL as int) is None,
        },
{
    frame_or_failure(zstd_encode(data, COMPRESSION_LEVEL))
}

/// Decompresses `frame`. Fails exactly where the frame holds no content,
/// and then the blob is corrupt.
pub fn decompress(frame: &[u8]) -> (content: Result<Vec<u8>, EngineError>)
    ensures
        match content {
            Ok(bytes) => frame_content(frame@) == Some(bytes@),
            Err(error) => error is CorruptBlob && frame_content(frame@) is None,
        },
{
    content_or_corrupt(zstd_decode(frame))
}

} // verus!
