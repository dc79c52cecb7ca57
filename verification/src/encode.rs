use vstd::prelude::*;
use crate::emit::{emit, emit_stream};
use crate::error::Error;
use crate::format::decode;
use crate::inverse::lemma_emit_decodes;
use crate::plan::{find_plan, plan_of};

verus! {

/// The instruction stream for `input`: the back-references that the search
/// finds, the literals between them, and the end marker.
pub open spec fn stream_of(input: Seq<u8>) -> Seq<u8> {
    emit(input, plan_of(input))
}

/// What compressing `input` gives: its stream where that is shorter than
/// the input, and no stream at all where it is not.
pub open spec fn compressed(input: Seq<u8>) -> Result<Seq<u8>, Error> {
    if stream_of(input).len() < input.len() {
        Ok(stream_of(input))
    } else {
        Err(Error::NotCompressible)
    }
}

/// Whether a stream of `stream_len` bytes is worth having for an input of
/// `input_len` bytes: only one that is shorter is.
pub open spec fn worth(stream_len: int, input_len: int) -> Result<(), Error> {
    if stream_len < input_len {
        Ok(())
    } else {
        Err(Error::NotCompressible)
    }
}

/// Accepts a stream that is shorter than its input, and refuses any other
/// as not compressible.
pub fn accept(stream_len: usize, input_len: usize) -> (outcome: Result<(), Error>)
    ensures
        outcome == worth(stream_len as int, input_len as int),
{
    if stream_len < input_len {
        Ok(())
    } else {
        Err(Error::NotCompressible)
    }
}

/// Writes the instruction stream for `indata`, whether or not it is shorter.
pub fn encode(indata: &[u8]) -> (stream: Vec<u8>)
    ensures
        stream@ == stream_of(indata@),
        decode(stream@, indata@.len() as int) == Ok::<Seq<u8>, Error>(indata@),
{
    let plan = find_plan(indata);
    proof {
        lemma_emit_decodes(indata@, plan@);
    }
    emit_stream(indata, &plan)
}

/// Compresses `indata`. The result is the instruction stream, which decodes
/// to `indata` and is shorter than it; an input whose stream is not shorter
/// is refused as not compressible, and is best stored as it is.
pub fn compress(indata: &[u8]) -> (result: Result<Vec<u8>, Error>)
    ensures
        match result {
            Ok(data) => {
                &&& compressed(indata@) == Ok::<Seq<u8>, Error>(data@)
                &&& data@.len() < indata@.len()
                &&& decode(data@, indata@.len() as int) == Ok::<Seq<u8>, Error>(indata@)
            },
            Err(kind) => {
                &&& compressed(indata@) == Err::<Seq<u8>, Error>(kind)
                &&& kind == Error::NotCompressible
            },
        },
{
    let stream = encode(indata);
    match accept(stream.len(), indata.len()) {
        Ok(()) => Ok(stream),
        Err(kind) => Err(kind),
    }
}

} // verus!
