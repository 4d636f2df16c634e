//! Headerless bzip2 blocks.
//!
//! The archive format strips the 4-byte bzip2 magic `"BZh1"` from every
//! compressed region to save space; it must be restored before the stream is
//! handed to the decompressor, and removed again from anything the
//! compressor produces.

use vstd::prelude::*;

verus! {

/// What bzip2 decodes a byte stream to: `Some` of the decompressed bytes
/// when the stream (magic included) is well formed, `None` otherwise.
/// Decompression is a pure function of the input bytes, so the result can
/// be named even though it is far too involved to write out.
pub uninterp spec fn bz_inflate(s: Seq<u8>) -> Option<Seq<u8>>;

/// The first of the four magic bytes `"BZh1"`.
pub const BZ_MAGIC_0: u8 = 0x42;

/// The second magic byte.
pub const BZ_MAGIC_1: u8 = 0x5a;

/// The third magic byte.
pub const BZ_MAGIC_2: u8 = 0x68;

/// The fourth magic byte: the block-size digit `'1'`, the level this
/// format's blocks are written at.
pub const BZ_MAGIC_3: u8 = 0x31;

/// The magic prefix as a sequence, for contracts.
pub open spec fn bz_magic() -> Seq<u8> {
    seq![BZ_MAGIC_0, BZ_MAGIC_1, BZ_MAGIC_2, BZ_MAGIC_3]
}

/// Relies on bzip2's `read::BzDecoder` with `read_to_end`: decodes one
/// complete stream, magic prefix included; any error only reports that the
/// stream is malformed. The result is `bz_inflate` of the input.
#[verifier::external_body]
fn bz_decompress(data: &Vec<u8>) -> (r: Option<Vec<u8>>)
    ensures
        match r {
            Some(v) => bz_inflate(data@) == Some(v@),
            None => bz_inflate(data@) is None,
        },
{
    let mut decoder = bzip2::read::BzDecoder::new(data.as_slice());
    let mut decoded: Vec<u8> = Vec::new();
    match std::io::Read::read_to_end(&mut decoder, &mut decoded) {
        Ok(_) => Some(decoded),
        Err(_) => None,
    }
}

/// What bzip2 compresses a byte sequence to at level 1, magic included: a
/// pure function of the input bytes, so the output can be named even
/// though the algorithm is far too involved to write out.
pub uninterp spec fn bz_deflate(s: Seq<u8>) -> Seq<u8>;

/// Relies on bzip2's `read::BzEncoder` at level 1 with `read_to_end`.
/// Compressing an in-memory slice cannot fail: the encoder's only error
/// sources are the underlying reader, which for a slice is infallible, and
/// a sequence error that cannot arise once the slice reports end of input.
/// The stream starts with the magic `"BZh1"` (`'B' 'Z' 'h'` and the level
/// digit), and `BzDecoder` decodes it back to the input.
#[verifier::external_body]
fn bz_compress(data: &Vec<u8>) -> (r: Vec<u8>)
    ensures
        r@ == bz_deflate(data@),
        bz_inflate(r@) == Some(data@),
        r@.len() >= 4,
        r@.subrange(0, 4) == bz_magic(),
{
    let mut encoder = bzip2::read::BzEncoder::new(data.as_slice(), bzip2::Compression::new(1));
    let mut encoded: Vec<u8> = Vec::new();
    std::io::Read::read_to_end(&mut encoder, &mut encoded).unwrap();
    encoded
}

/// Decodes one headerless block: restores the stripped magic prefix, then
/// decompresses. `Some` exactly when bzip2 accepts the prefixed stream.
pub fn decompress(block: &Vec<u8>) -> (r: Option<Vec<u8>>)
    ensures
        match r {
            Some(v) => bz_inflate(bz_magic() + block@) == Some(v@),
            None => bz_inflate(bz_magic() + block@) is None,
        },
{
    let mut prefixed: Vec<u8> = Vec::new();
    prefixed.push(BZ_MAGIC_0);
    prefixed.push(BZ_MAGIC_1);
    prefixed.push(BZ_MAGIC_2);
    prefixed.push(BZ_MAGIC_3);
    prefixed.extend_from_slice(block.as_slice());
    proof {
        assert(prefixed@ =~= bz_magic() + block@);
    }
    bz_decompress(&prefixed)
}

/// Encodes one headerless block: compresses at level 1, then strips the
/// 4-byte magic prefix the wire format leaves out. The result is exactly
/// the tail of [`bz_deflate`], and [`decompress`] of it yields the input
/// back.
pub fn compress(data: &Vec<u8>) -> (r: Vec<u8>)
    ensures
        r@ == bz_deflate(data@).skip(4),
        bz_magic() + r@ == bz_deflate(data@),
        bz_inflate(bz_magic() + r@) == Some(data@),
{
    let full: Vec<u8> = bz_compress(data);
    let mut stripped: Vec<u8> = Vec::new();
    let n: usize = full.len();
    let mut i: usize = 4;
    while i < n
        invariant
            4 <= i <= n,
            n == full@.len(),
            stripped@ =~= full@.subrange(4, i as int),
        decreases n - i,
    {
        let b: u8 = full[i];
        stripped.push(b);
        i = i + 1;
    }
    proof {
        assert(stripped@ =~= full@.skip(4));
        assert(bz_magic() + stripped@ =~= full@);
    }
    stripped
}

} // verus!
