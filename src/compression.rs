//! zlib compression of byte blobs, through the flate2 crate.
use vstd::prelude::*;

verus! {

/// The zlib stream flate2 produces for `data` at its default level.
pub uninterp spec fn zlib_deflated(data: Seq<u8>) -> Seq<u8>;

/// The bytes flate2's zlib decoder inflates `data` to; `None` where it
/// rejects `data` (a corrupt stream, or one that ends early).
pub uninterp spec fn zlib_inflated(data: Seq<u8>) -> Option<Seq<u8>>;

/// Compressing a blob failed; the message is the codec's own.
#[derive(Debug)]
pub struct CompressionError {
    pub message: String,
}

/// Decompressing a blob failed (corrupt or truncated stream); the message
/// is the codec's own.
#[derive(Debug)]
pub struct DecompressionError {
    pub message: String,
}

#[derive(Debug)]
pub enum CompressorError {
    CompressionError(CompressionError),
    DecompressionError(DecompressionError),
}

/// Relies on flate2's `write::ZlibEncoder` at `Compression::default()`,
/// fed with `write_all` and closed with `finish`: the output is the zlib
/// stream of the input, which inflates back to the input. It writes into a
/// `Vec`, which never fails, and miniz fails only on a dictionary request
/// or bad parameters, neither of which arises here, so it always succeeds.
#[verifier::external_body]
fn deflate(data: &[u8]) -> (r: Result<Vec<u8>, CompressionError>)
    ensures
        r is Ok,
        r matches Ok(b) ==> b@ == zlib_deflated(data@),
        r matches Ok(b) ==> zlib_inflated(b@) == Some(data@),
{
    let mut encoder = flate2::write::ZlibEncoder::new(Vec::new(), flate2::Compression::default());
    if let Err(e) = std::io::Write::write_all(&mut encoder, data) {
        return Err(CompressionError { message: e.to_string() });
    }
    match encoder.finish() {
        Ok(b) => Ok(b),
        Err(e) => Err(CompressionError { message: e.to_string() }),
    }
}

/// Relies on flate2's `bufread::ZlibDecoder` read with `read_to_end`: it
/// yields the inflated bytes of an intact stream, and an error for a corrupt
/// one or one that ends early ("incomplete deflate stream").
#[verifier::external_body]
fn inflate(data: &[u8]) -> (r: Result<Vec<u8>, DecompressionError>)
    ensures
        r is Ok <==> zlib_inflated(data@) is Some,
        r matches Ok(b) ==> zlib_inflated(data@) == Some(b@),
{
    let mut decoder = flate2::bufread::ZlibDecoder::new(data);
    let mut buffer: Vec<u8> = Vec::new();
    match std::io::Read::read_to_end(&mut decoder, &mut buffer) {
        Ok(_) => Ok(buffer),
        Err(e) => Err(DecompressionError { message: e.to_string() }),
    }
}

/// What a [`Compressor`] is doing; it rests at `IDLE` after each finished
/// operation and stays at the operation's value after a failed one.
#[derive(Debug, Clone, Copy, PartialEq, Eq)]
pub enum CompressionAction {
    COMPRESS,
    DECOMPRESS,
    IDLE,
}

#[derive(Debug)]
pub struct Compressor {
    pub action: CompressionAction,
}

/// Compression of byte slices with a record of the operation under way.
pub trait CompressionHandler: Sized {
    spec fn current_action(&self) -> CompressionAction;

    fn compress_slice(&mut self, data: &[u8]) -> (r: Result<Vec<u8>, CompressionError>)
        ensures
            r is Ok,
            r matches Ok(b) ==> b@ == zlib_deflated(data@) && zlib_inflated(b@) == Some(data@),
            final(self).current_action() == (if r is Ok {
                CompressionAction::IDLE
            } else {
                CompressionAction::COMPRESS
            }),
    ;

    fn decompress_slice(&mut self, data: &[u8]) -> (r: Result<Vec<u8>, DecompressionError>)
        ensures
            r is Ok <==> zlib_inflated(data@) is Some,
            r matches Ok(b) ==> zlib_inflated(data@) == Some(b@),
            final(self).current_action() == (if r is Ok {
                CompressionAction::IDLE
            } else {
                CompressionAction::DECOMPRESS
            }),
    ;
}

impl CompressionHandler for Compressor {
    open spec fn current_action(&self) -> CompressionAction {
        self.action
    }

    fn compress_slice(&mut self, data: &[u8]) -> (r: Result<Vec<u8>, CompressionError>) {
        self.action = CompressionAction::COMPRESS;
        let r = deflate(data);
        if r.is_ok() {
            self.action = CompressionAction::IDLE;
        }
        r
    }

    fn decompress_slice(&mut self, data: &[u8]) -> (r: Result<Vec<u8>, DecompressionError>) {
        self.action = CompressionAction::DECOMPRESS;
        let r = inflate(data);
        if r.is_ok() {
            self.action = CompressionAction::IDLE;
        }
        r
    }
}

impl Compressor {
    pub fn new() -> (r: Compressor)
        ensures
            r.action == CompressionAction::IDLE,
    {
        Compressor { action: CompressionAction::IDLE }
    }

    /// Compresses `data`; see [`CompressionHandler::compress_slice`].
    pub fn compress_vec(&mut self, data: &Vec<u8>) -> (r: Result<Vec<u8>, CompressionError>)
        ensures
            r is Ok,
            r matches Ok(b) ==> b@ == zlib_deflated(data@) && zlib_inflated(b@) == Some(data@),
            final(self).action == (if r is Ok {
                CompressionAction::IDLE
            } else {
                CompressionAction::COMPRESS
            }),
    {
        self.compress_slice(data.as_slice())
    }

    /// Decompresses `data`; see [`CompressionHandler::decompress_slice`].
    pub fn decompress_vec(&mut self, data: &Vec<u8>) -> (r: Result<Vec<u8>, DecompressionError>)
        ensures
            r is Ok <==> zlib_inflated(data@) is Some,
            r matches Ok(b) ==> zlib_inflated(data@) == Some(b@),
            final(self).action == (if r is Ok {
                CompressionAction::IDLE
            } else {
                CompressionAction::DECOMPRESS
            }),
    {
        self.decompress_slice(data.as_slice())
    }
}

} // verus!
