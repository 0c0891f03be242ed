//! Per-block compression codecs.
//!
//! Each table-file block is passed through the configured codec as a whole.
//! The codecs themselves are outside crates; what each call returns is given
//! a name, and the one fact the engine relies on — decompressing what was
//! compressed yields the original bytes — is stated where the call is made.

use vstd::prelude::*;
use vstd::slice::slice_to_vec;

use crate::config::CompressionAlgorithm;

verus! {

/// Longest plain block any codec here accepts. The binding constraint is
/// Snappy's: its worst-case output 32 + n + n/6 must fit a u32, which this
/// bound keeps with room to spare for every codec.
pub const MAX_BLOCK_PLAIN_LEN: usize = 3_681_400_511;

pub uninterp spec fn snappy_compress_of(b: Seq<u8>) -> Seq<u8>;

pub uninterp spec fn snappy_decompress_of(b: Seq<u8>) -> Option<Seq<u8>>;

pub uninterp spec fn zlib_compress_of(b: Seq<u8>) -> Seq<u8>;

pub uninterp spec fn zlib_decompress_of(b: Seq<u8>) -> Option<Seq<u8>>;

pub uninterp spec fn zstd_compress_of(b: Seq<u8>) -> Seq<u8>;

pub uninterp spec fn zstd_decompress_of(b: Seq<u8>) -> Option<Seq<u8>>;

pub uninterp spec fn lz4_compress_of(b: Seq<u8>) -> Seq<u8>;

pub uninterp spec fn lz4_decompress_of(b: Seq<u8>) -> Option<Seq<u8>>;

/// Relies on snap::raw::Encoder::compress_vec: block compression in the
/// Snappy format; decompressing its output returns the input. The bound
/// mirrors snap's max_compress_len: the call errors once the worst-case
/// output 32 + n + n/6 leaves u32, so such inputs are kept out.
#[verifier::external_body]
fn snappy_compress(b: &[u8]) -> (r: Vec<u8>)
    requires
        32 + b@.len() + b@.len() / 6 <= 0xffff_ffff,
    ensures
        r@ == snappy_compress_of(b@),
        snappy_decompress_of(r@) == Some(b@),
{
    snap::raw::Encoder::new().compress_vec(b).unwrap()
}

/// Relies on snap::raw::Decoder::decompress_vec: inverts Snappy block
/// compression, failing on malformed input.
#[verifier::external_body]
fn snappy_decompress(b: &[u8]) -> (r: Option<Vec<u8>>)
    ensures
        (match r {
            Some(v) => snappy_decompress_of(b@) == Some(v@),
            None => snappy_decompress_of(b@) is None,
        }),
{
    snap::raw::Decoder::new().decompress_vec(b).ok()
}

/// Relies on miniz_oxide::deflate::compress_to_vec_zlib: deflate compression
/// in the zlib format; decompressing its output returns the input.
#[verifier::external_body]
fn zlib_compress(b: &[u8]) -> (r: Vec<u8>)
    ensures
        r@ == zlib_compress_of(b@),
        zlib_decompress_of(r@) == Some(b@),
{
    miniz_oxide::deflate::compress_to_vec_zlib(b, 6)
}

/// Relies on miniz_oxide::inflate::decompress_to_vec_zlib: inverts zlib
/// compression, failing on malformed input.
#[verifier::external_body]
fn zlib_decompress(b: &[u8]) -> (r: Option<Vec<u8>>)
    ensures
        (match r {
            Some(v) => zlib_decompress_of(b@) == Some(v@),
            None => zlib_decompress_of(b@) is None,
        }),
{
    miniz_oxide::inflate::decompress_to_vec_zlib(b).ok()
}

/// Relies on zstd::stream::encode_all: Zstandard compression of one buffer;
/// decompressing its output returns the input.
#[verifier::external_body]
fn zstd_compress(b: &[u8]) -> (r: Vec<u8>)
    ensures
        r@ == zstd_compress_of(b@),
        zstd_decompress_of(r@) == Some(b@),
{
    zstd::stream::encode_all(b, 0).unwrap()
}

/// Relies on zstd::stream::decode_all: inverts Zstandard compression,
/// failing on malformed input.
#[verifier::external_body]
fn zstd_decompress(b: &[u8]) -> (r: Option<Vec<u8>>)
    ensures
        (match r {
            Some(v) => zstd_decompress_of(b@) == Some(v@),
            None => zstd_decompress_of(b@) is None,
        }),
{
    zstd::stream::decode_all(b).ok()
}

/// Relies on lz4_flex::block::compress_prepend_size: LZ4 block compression
/// with the plain size prepended; decompressing its output returns the
/// input.
#[verifier::external_body]
fn lz4_compress(b: &[u8]) -> (r: Vec<u8>)
    requires
        b@.len() <= 0xffff_ffff,
    ensures
        r@ == lz4_compress_of(b@),
        lz4_decompress_of(r@) == Some(b@),
{
    lz4_flex::block::compress_prepend_size(b)
}

/// Relies on lz4_flex::block::decompress_size_prepended: inverts the
/// size-prepended LZ4 block compression, failing on malformed input.
#[verifier::external_body]
fn lz4_decompress(b: &[u8]) -> (r: Option<Vec<u8>>)
    ensures
        (match r {
            Some(v) => lz4_decompress_of(b@) == Some(v@),
            None => lz4_decompress_of(b@) is None,
        }),
{
    lz4_flex::block::decompress_size_prepended(b).ok()
}

/// What decompressing a stored block yields under each codec; storing
/// without compression is the identity.
pub open spec fn spec_decompress(algo: CompressionAlgorithm, payload: Seq<u8>) -> Option<Seq<u8>> {
    match algo {
        CompressionAlgorithm::NoCompression => Some(payload),
        CompressionAlgorithm::Snappy => snappy_decompress_of(payload),
        CompressionAlgorithm::Zlib => zlib_decompress_of(payload),
        CompressionAlgorithm::Zstd => zstd_decompress_of(payload),
        CompressionAlgorithm::Lz4 => lz4_decompress_of(payload),
    }
}

/// Compresses one plain block with the configured codec. Whatever the codec,
/// decompressing the stored bytes returns the plain block: compression is
/// lossless.
pub(crate) fn compress_block(algo: CompressionAlgorithm, plain: &[u8]) -> (r: Vec<u8>)
    requires
        plain@.len() <= MAX_BLOCK_PLAIN_LEN,
    ensures
        spec_decompress(algo, r@) == Some(plain@),
{
    proof {
        assert(plain@.len() / 6 <= MAX_BLOCK_PLAIN_LEN as int / 6);
        assert(32 + plain@.len() + plain@.len() / 6 <= 0xffff_ffff);
    }
    match algo {
        CompressionAlgorithm::NoCompression => slice_to_vec(plain),
        CompressionAlgorithm::Snappy => snappy_compress(plain),
        CompressionAlgorithm::Zlib => zlib_compress(plain),
        CompressionAlgorithm::Zstd => zstd_compress(plain),
        CompressionAlgorithm::Lz4 => lz4_compress(plain),
    }
}

/// Decompresses one stored block with the configured codec; malformed input
/// is reported, never silently accepted.
pub(crate) fn decompress_block(algo: CompressionAlgorithm, payload: &[u8]) -> (r: Option<Vec<u8>>)
    ensures
        (match r {
            Some(v) => spec_decompress(algo, payload@) == Some(v@),
            None => spec_decompress(algo, payload@) is None,
        }),
{
    match algo {
        CompressionAlgorithm::NoCompression => Some(slice_to_vec(payload)),
        CompressionAlgorithm::Snappy => snappy_decompress(payload),
        CompressionAlgorithm::Zlib => zlib_decompress(payload),
        CompressionAlgorithm::Zstd => zstd_decompress(payload),
        CompressionAlgorithm::Lz4 => lz4_decompress(payload),
    }
}

} // verus!
