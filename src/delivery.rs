use crate::chunked::{framing_error, total_length, ChunkSize, ChunkedMessage};
use crate::error::LogError;
use flate2::write::GzEncoder;
use flate2::Compression;
use std::io::Write;
use vstd::prelude::*;

verus! {

/// The gzip stream (default level, no timestamp, no file name) of `data`.
pub uninterp spec fn gzip_of(data: Seq<u8>) -> Seq<u8>;

/// Relies on flate2's `GzEncoder` writing into a `Vec` (`new`, `write_all`,
/// `finish`): with the default header the stream depends on the input alone;
/// writes into a `Vec` never fail, so neither does the encoder; the stream
/// opens with a ten-byte header that starts `1f 8b` and closes with an
/// eight-byte trailer.
#[verifier::external_body]
fn gzip(data: &Vec<u8>) -> (r: Option<Vec<u8>>)
    ensures
        r is Some,
        r matches Some(v) ==> v@ == gzip_of(data@),
        r matches Some(v) ==> v@.len() >= 18 && v@[0] == 0x1f && v@[1] == 0x8b,
{
    let mut e = GzEncoder::new(Vec::new(), Compression::default());
    e.write_all(data).ok()?;
    e.finish().ok()
}

/// Compresses a log message into a gzip stream. Compression into memory
/// always succeeds; a failure of the compressor would be reported as
/// `CompressionFailure`.
pub fn compress(message: &Vec<u8>) -> (r: Result<Vec<u8>, LogError>)
    ensures
        r is Ok,
        match r {
            Ok(v) => {
                &&& v@ == gzip_of(message@)
                &&& v@.len() >= 18
                &&& v@[0] == 0x1f && v@[1] == 0x8b
            },
            Err(e) => e == LogError::CompressionFailure,
        },
{
    match gzip(message) {
        Some(v) => Ok(v),
        None => Err(LogError::CompressionFailure),
    }
}

/// Compresses `message` and frames the result into chunks of at most
/// `chunk_size` bytes under a fresh identifier. It fails exactly when the
/// compressed message cannot be framed under `chunk_size`. Nothing is sent.
pub fn prepare(message: &Vec<u8>, chunk_size: ChunkSize) -> (r: Result<ChunkedMessage, LogError>)
    ensures
        match r {
            Ok(m) => {
                &&& framing_error(gzip_of(message@).len(), chunk_size) is None
                &&& gzip_of(message@).len() >= 18
                &&& m.wf()
                &&& m.payload() == gzip_of(message@)
                &&& m.size() == chunk_size
            },
            Err(e) => framing_error(gzip_of(message@).len(), chunk_size) == Some(e),
        },
{
    let compressed = compress(message)?;
    ChunkedMessage::new(chunk_size, compressed)
}

/// Sum of the byte counts in `counts`.
pub open spec fn sum_of(counts: Seq<usize>) -> int
    decreases counts.len(),
{
    if counts.len() == 0 {
        0
    } else {
        sum_of(counts.drop_last()) + counts.last()
    }
}

/// Decides a send of `message`, given the number of bytes the transport
/// accepted for each attempted chunk (zero for a failed send): it succeeded
/// exactly when those counts add up to the message's serialized length.
pub fn confirm_delivery(message: &ChunkedMessage, accepted: &Vec<usize>) -> (r: Result<
    (),
    LogError,
>)
    requires
        message.wf(),
    ensures
        r is Ok <==> sum_of(accepted@) == total_length(message.chunk_views()),
        r is Err ==> r == Err::<(), LogError>(LogError::DeliveryIncomplete),
{
    let target = message.len();
    let mut acc: usize = 0;
    let mut over = false;
    let mut i: usize = 0;
    while i < accepted.len()
        invariant
            i <= accepted@.len(),
            target == total_length(message.chunk_views()),
            over ==> sum_of(accepted@.take(i as int)) > target,
            !over ==> acc == sum_of(accepted@.take(i as int)) && acc <= target,
        decreases accepted@.len() - i,
    {
        let a = accepted[i];
        proof {
            assert(accepted@.take(i + 1).drop_last() =~= accepted@.take(i as int));
        }
        if !over {
            if a > target - acc {
                over = true;
            } else {
                acc = acc + a;
            }
        }
        i = i + 1;
    }
    proof {
        assert(accepted@.take(i as int) =~= accepted@);
    }
    if !over && acc == target {
        Ok(())
    } else {
        Err(LogError::DeliveryIncomplete)
    }
}

/// Address family of a resolved destination.
#[derive(Clone, Copy, Debug, PartialEq, Eq, Structural)]
pub enum AddressFamily {
    V4,
    V6,
}

/// The local wildcard endpoint, on an ephemeral port, of the destination's
/// address family.
pub fn local_bind_address(family: AddressFamily) -> (r: &'static str)
    ensures
        family == AddressFamily::V4 ==> r@ == "0.0.0.0:0"@,
        family == AddressFamily::V6 ==> r@ == "[::]:0"@,
{
    match family {
        AddressFamily::V4 => "0.0.0.0:0",
        AddressFamily::V6 => "[::]:0",
    }
}

} // verus!
