use vstd::prelude::*;

verus! {

/// Errors of the compression and serialization layer.
#[derive(Debug, Clone, PartialEq, Eq)]
pub enum CryptoSerializerError {
    CiboriumReaderError(String),
    CiboriumWriterError(String),
    Lz4DecompressError(String),
    LzzzzCompressionError(String),
    LzzzzDecompressionError(String),
    BincodeSerializeError(String),
    BincodeDeserializeError(String),
}

/// What lz4_compress decodes from the given bytes; none for invalid input.
pub uninterp spec fn lz4_decompressed(b: Seq<u8>) -> Option<Seq<u8>>;

/// Relies on `lz4_compress::compress`: a block that `lz4_compress::decompress`
/// turns back into the input (which block depends on the machine's byte order).
#[verifier::external_body]
fn lz4_compress_bytes(input: &[u8]) -> (r: Vec<u8>)
    ensures
        lz4_decompressed(r@) == Some(input@),
{
    lz4_compress::compress(input)
}

/// Relies on `lz4_compress::decompress`: a function of the input bytes that
/// fails on invalid input; the error comes back as its message.
#[verifier::external_body]
fn lz4_decompress_bytes(input: &[u8]) -> (r: Result<Vec<u8>, String>)
    ensures
        r is Ok == lz4_decompressed(input@) is Some,
        r is Ok ==> r->Ok_0@ == lz4_decompressed(input@)->0,
{
    lz4_compress::decompress(input).map_err(|err| format!("{}", err))
}

pub fn compress_lz4(input: &[u8]) -> (r: Vec<u8>)
    ensures
        lz4_decompressed(r@) == Some(input@),
{
    lz4_compress_bytes(input)
}

pub fn decompress_lz4(input: &[u8]) -> (r: Result<Vec<u8>, CryptoSerializerError>)
    ensures
        r is Ok == lz4_decompressed(input@) is Some,
        r is Ok ==> r->Ok_0@ == lz4_decompressed(input@)->0,
        r is Err ==> r->Err_0 is Lz4DecompressError,
{
    match lz4_decompress_bytes(input) {
        Ok(v) => Ok(v),
        Err(msg) => Err(CryptoSerializerError::Lz4DecompressError(msg)),
    }
}

pub fn lzzzz_cbor_from_file_err(err: String) -> (r: CryptoSerializerError)
    ensures
        r == CryptoSerializerError::LzzzzDecompressionError(err),
{
    CryptoSerializerError::LzzzzDecompressionError(err)
}

pub fn lzzzz_cbor_to_file_err(err_str: String) -> (r: CryptoSerializerError)
    ensures
        r == CryptoSerializerError::LzzzzCompressionError(err_str),
{
    CryptoSerializerError::LzzzzCompressionError(err_str)
}

pub fn lzzzz_bincode_from_file_err(err: String) -> (r: CryptoSerializerError)
    ensures
        r == CryptoSerializerError::LzzzzDecompressionError(err),
{
    CryptoSerializerError::LzzzzDecompressionError(err)
}

pub fn lzzzz_bincode_to_file_err(err_str: String) -> (r: CryptoSerializerError)
    ensures
        r == CryptoSerializerError::LzzzzCompressionError(err_str),
{
    CryptoSerializerError::LzzzzCompressionError(err_str)
}

} // verus!
