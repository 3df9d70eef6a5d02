use vstd::prelude::*;
use crate::types::QueryError;

verus! {

/// The CRC-32 (IEEE) checksum of a byte sequence, as `crc32fast::hash` computes it.
pub uninterp spec fn crc32_of(b: Seq<u8>) -> u32;

/// The bytes that a bzip2 stream decompresses to, or nothing when the
/// stream is rejected.
pub uninterp spec fn bzip2_decode(input: Seq<u8>) -> Option<Seq<u8>>;

/// Relies on `crc32fast::hash`: the IEEE CRC-32 of the bytes.
#[verifier::external_body]
fn crc32(b: &[u8]) -> (r: u32)
    ensures
        r == crc32_of(b@),
{
    crc32fast::hash(b)
}

/// Relies on `bzip2_rs::DecoderReader` read to the end: the whole decompressed
/// stream, or an error when the stream is malformed or truncated.
#[verifier::external_body]
fn bzip2_decompress(input: &[u8]) -> (r: Option<Vec<u8>>)
    ensures
        r is None <==> bzip2_decode(input@) is None,
        r matches Some(v) ==> bzip2_decode(input@) == Some(v@),
{
    let mut out = Vec::new();
    match std::io::Read::read_to_end(&mut bzip2_rs::DecoderReader::new(input), &mut out) {
        Ok(_) => Some(out),
        Err(_) => None,
    }
}

/// Accepts decompressed bytes only when their length and checksum are the
/// declared ones.
pub fn accept_decompressed(output: Vec<u8>, output_crc: u32, size: u32, crc: u32) -> (r: Result<Vec<u8>, QueryError>)
    ensures
        output@.len() == size && output_crc == crc ==> (r matches Ok(v) && v@ == output@),
        !(output@.len() == size && output_crc == crc) ==> r == Err::<Vec<u8>, QueryError>(QueryError::Decompress),
{
    if output.len() as u64 == size as u64 && output_crc == crc {
        Ok(output)
    } else {
        Err(QueryError::Decompress)
    }
}

/// The logical payload of reassembled bytes `p`, given the declared
/// (size, CRC32) pair of a compressed response.
pub open spec fn payload_spec(p: Seq<u8>, declared: Option<(u32, u32)>) -> Result<Seq<u8>, QueryError> {
    match declared {
        None => Ok(p),
        Some((size, crc)) => match bzip2_decode(p) {
            None => Err(QueryError::Decompress),
            Some(out) => if out.len() == size && crc32_of(out) == crc {
                Ok(out)
            } else {
                Err(QueryError::Decompress)
            },
        },
    }
}

/// Turns a reassembled payload into the logical one: decompressed and checked
/// when `declared` holds the (size, CRC32) pair, unchanged otherwise.
pub fn get_payload(payload: &Vec<u8>, declared: Option<(u32, u32)>) -> (r: Result<Vec<u8>, QueryError>)
    ensures
        match payload_spec(payload@, declared) {
            Ok(s) => r matches Ok(v) && v@ == s,
            Err(e) => r == Err::<Vec<u8>, QueryError>(e),
        },
        declared matches Some((size, crc)) ==> (r matches Ok(v) ==> v@.len() == size && crc32_of(v@) == crc),
{
    match declared {
        None => Ok(payload.clone()),
        Some((size, crc)) => {
            match bzip2_decompress(payload.as_slice()) {
                None => Err(QueryError::Decompress),
                Some(out) => {
                    let c = crc32(out.as_slice());
                    accept_decompressed(out, c, size, crc)
                },
            }
        },
    }
}

} // verus!
