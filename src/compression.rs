//! The two codecs and the choice between them.
use vstd::prelude::*;

verus! {

/// What the zlib encoder at its fast level makes of a byte sequence.
pub uninterp spec fn zlib_of(data: Seq<u8>) -> Seq<u8>;

/// What the zstd encoder at a given level makes of a byte sequence.
pub uninterp spec fn zstd_of(data: Seq<u8>, level: i32) -> Seq<u8>;

#[derive(Debug, Clone, Copy, PartialEq, Eq, Structural)]
pub enum CompressionMethod {
    Zlib,
    Zstd,
}

#[derive(Debug, Clone, Copy, PartialEq, Eq, Structural)]
pub struct CompressionConfig {
    pub level: Option<i32>,
    pub method: CompressionMethod,
}

/// The bytes that the configured codec stores for `data`: zstd at level 1
/// unless the configuration says otherwise.
pub open spec fn compressed_form(cfg: Option<CompressionConfig>, data: Seq<u8>) -> Seq<u8> {
    match cfg {
        Some(c) => match c.method {
            CompressionMethod::Zlib => zlib_of(data),
            CompressionMethod::Zstd => zstd_of(
                data,
                match c.level {
                    Some(l) => l,
                    None => 1,
                },
            ),
        },
        None => zstd_of(data, 1),
    }
}

/// Relies on flate2's ZlibEncoder at Compression::fast(), writing into memory:
/// writing into a `Vec` fails only when memory runs out.
#[verifier::external_body]
fn zlib_compress(data: &[u8]) -> (r: Option<Vec<u8>>)
    ensures
        r is Some && r->0@ == zlib_of(data@),
{
    let mut encoder = flate2::write::ZlibEncoder::new(Vec::new(), flate2::Compression::fast());
    std::io::Write::write_all(&mut encoder, data).ok()?;
    encoder.finish().ok()
}

/// Relies on flate2's ZlibDecoder: it restores what the encoder was given.
#[verifier::external_body]
fn zlib_decompress(data: &[u8]) -> (r: Option<Vec<u8>>)
    ensures
        forall|x: Seq<u8>| data@ == zlib_of(x) ==> (r is Some && r->0@ == x),
{
    let mut decoder = flate2::read::ZlibDecoder::new(data);
    let mut out = Vec::new();
    std::io::Read::read_to_end(&mut decoder, &mut out).ok()?;
    Some(out)
}

/// Relies on zstd::encode_all at the given level: reading from a slice and
/// writing into a `Vec` fails only when memory runs out, and a level out of
/// range is clamped.
#[verifier::external_body]
fn zstd_compress(data: &[u8], level: i32) -> (r: Option<Vec<u8>>)
    ensures
        r is Some && r->0@ == zstd_of(data@, level),
{
    zstd::encode_all(data, level).ok()
}

/// Relies on zstd::decode_all: it restores what the encoder was given, at any level.
#[verifier::external_body]
fn zstd_decompress(data: &[u8]) -> (r: Option<Vec<u8>>)
    ensures
        forall|x: Seq<u8>, l: i32| data@ == zstd_of(x, l) ==> (r is Some && r->0@ == x),
{
    zstd::decode_all(data).ok()
}

/// Compresses with the configured codec.
pub fn compress(data: &[u8], cfg: &Option<CompressionConfig>) -> (r: Option<Vec<u8>>)
    ensures
        r is Some && r->0@ == compressed_form(*cfg, data@),
{
    match cfg {
        Some(c) => match c.method {
            CompressionMethod::Zlib => zlib_compress(data),
            CompressionMethod::Zstd => {
                let level = match c.level {
                    Some(l) => l,
                    None => 1,
                };
                zstd_compress(data, level)
            },
        },
        None => zstd_compress(data, 1),
    }
}

/// Decompresses with the configured codec. Whatever `compress` produced under
/// the same configuration comes back as the uncompressed bytes.
pub fn decompress(data: &[u8], cfg: &Option<CompressionConfig>) -> (r: Option<Vec<u8>>)
    ensures
        forall|x: Seq<u8>| data@ == compressed_form(*cfg, x) ==> (r is Some && r->0@ == x),
{
    match cfg {
        Some(c) => match c.method {
            CompressionMethod::Zlib => zlib_decompress(data),
            CompressionMethod::Zstd => zstd_decompress(data),
        },
        None => zstd_decompress(data),
    }
}

} // verus!
