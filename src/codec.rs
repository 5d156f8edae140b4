//! The contracts every record of the store format follows: how it is
//! written out, how it is read back, and how a wire record turns into its
//! application-facing counterpart.
use vstd::prelude::*;

verus! {

/// A value could not be written out.
#[derive(Debug)]
pub struct EncoderError {
    pub message: String,
}

impl EncoderError {
    pub fn new(message: &str) -> (r: EncoderError)
        ensures
            r.message@ == message@,
    {
        EncoderError { message: message.to_owned() }
    }
}

/// Bytes did not hold a record; the message names the record type and the
/// field where reading stopped (`"ChunkEntry.target"`).
#[derive(Debug)]
pub struct DecoderError {
    pub message: String,
}

impl DecoderError {
    pub fn new(message: &str) -> (r: DecoderError)
        ensures
            r.message@ == message@,
    {
        DecoderError { message: message.to_owned() }
    }
}

/// A wire record could not be turned into its application-facing form,
/// or the other way round.
#[derive(Debug)]
pub struct TranscoderError {
    pub message: String,
}

impl TranscoderError {
    pub fn new(message: &str) -> (r: TranscoderError)
        ensures
            r.message@ == message@,
    {
        TranscoderError { message: message.to_owned() }
    }
}

/// Writing a record out, field after field in declaration order.
pub trait Encoder: View + Sized {
    /// Whether the fields agree with one another well enough to be written
    /// (a count field matches its vector, a null-terminated field holds no zero).
    spec fn encodable(v: Self::V) -> bool;

    /// The bytes a value is written as.
    spec fn encoding(v: Self::V) -> Seq<u8>;

    fn encode(&self) -> (r: Result<Vec<u8>, EncoderError>)
        ensures
            r is Ok <==> Self::encodable(self@),
            r matches Ok(b) ==> b@ == Self::encoding(self@),
    ;
}

/// Reading a record from a cursor position in a buffer.
pub trait Decoder: View + Sized {
    /// The value that the bytes of `s` from `p` on begin with, and the
    /// position just after it; `None` where they hold none.
    spec fn parse_at(s: Seq<u8>, p: nat) -> Option<(Self::V, nat)>;

    fn decode(input: &[u8], pos: usize) -> (r: Result<(Self, usize), DecoderError>)
        ensures
            match r {
                Ok((v, end)) => Self::parse_at(input@, pos as nat) == Some((v@, end as nat)),
                Err(_) => Self::parse_at(input@, pos as nat) is None,
            },
    ;
}

/// Turning a value into its counterpart on the other side of the wire.
pub trait Transcoder<T>: Sized {
    /// Whether the value has a counterpart.
    spec fn transcodable(&self) -> bool;

    /// `t` is the counterpart of the value.
    spec fn transcodes_to(&self, t: T) -> bool;

    fn transcode(&self) -> (r: Result<Box<T>, TranscoderError>)
        ensures
            r is Ok <==> self.transcodable(),
            r matches Ok(t) ==> self.transcodes_to(*t),
    ;
}

} // verus!
