//! The output compressor: the rendered document bytes are shrunk with a
//! zlib stream at the fast setting before they reach the artifact file.

use vstd::prelude::*;

verus! {

/// What the zlib stream compressor at its fast setting returns for a byte
/// sequence. The result depends on the bytes alone.
pub uninterp spec fn zlib_fast_of(data: Seq<u8>) -> Seq<u8>;

/// Relies on `flate2::write::ZlibEncoder` with `Compression::fast`: it
/// deflates the bytes into a zlib stream. Writing into a `Vec` sink cannot
/// fail, so the two `expect`s never fire.
#[verifier::external_body]
fn zlib_compress_raw(data: &Vec<u8>) -> (r: Vec<u8>)
    ensures
        r@ == zlib_fast_of(data@),
{
    let mut enc = flate2::write::ZlibEncoder::new(Vec::new(), flate2::Compression::fast());
    std::io::Write::write_all(&mut enc, data.as_slice()).expect("writing to a Vec cannot fail");
    enc.finish().expect("finishing a Vec-backed stream cannot fail")
}

/// Compresses the rendered document into the bytes of the output artifact.
pub fn compress_document(data: &Vec<u8>) -> (r: Vec<u8>)
    ensures
        r@ == zlib_fast_of(data@),
{
    zlib_compress_raw(data)
}

} // verus!
