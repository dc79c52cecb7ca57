use vstd::prelude::*;
use crate::emit::{match_bytes, BackRef};
use crate::encode::{compressed, stream_of};
use crate::error::Error;
use crate::format::{
    copy_back, decode, decode_rest, decoding_failure, instr_at, lemma_copy_back_len, step, zero_run, Instr, Step,
};
use crate::inverse::{lemma_emit_decodes, lemma_long_form_len};
use crate::plan::{lemma_plan_sound, plan_of, MARGIN};

verus! {

/// Decoding the stream of an input, with the input's length declared, gives
/// the input back.
pub proof fn lemma_round_trip(input: Seq<u8>)
    requires
        input.len() <= usize::MAX,
    ensures
        decode(stream_of(input), input.len() as int) == Ok::<Seq<u8>, Error>(input),
{
    lemma_plan_sound(input);
    lemma_emit_decodes(input, plan_of(input));
}

/// Whatever compressing an input gives decodes to that input.
pub proof fn lemma_compress_round_trip(input: Seq<u8>, data: Seq<u8>)
    requires
        input.len() <= usize::MAX,
        compressed(input) == Ok::<Seq<u8>, Error>(data),
    ensures
        decode(data, input.len() as int) == Ok::<Seq<u8>, Error>(input),
{
    lemma_round_trip(input);
}

/// Compressing either gives a stream shorter than the input or refuses the
/// input as not compressible.
pub proof fn lemma_compress_shrinks(input: Seq<u8>)
    ensures
        match compressed(input) {
            Ok(data) => data.len() < input.len(),
            Err(kind) => kind == Error::NotCompressible,
        },
{
}

/// An input of at most 20 bytes is never compressible: its stream is the
/// input behind one byte that counts it, and the end marker.
pub proof fn lemma_small_input_refused(input: Seq<u8>)
    requires
        input.len() <= MARGIN,
    ensures
        plan_of(input) == Seq::<BackRef>::empty(),
        stream_of(input).len() >= input.len() + 3,
        compressed(input) == Err::<Seq<u8>, Error>(Error::NotCompressible),
{
}

/// A back-reference that reaches behind the start of the output is refused
/// as a lookbehind overrun, whatever follows it in the stream.
pub proof fn lemma_lookbehind_refused(rest: Seq<u8>, out: Seq<u8>, state: int, cap: int)
    requires
        rest.len() >= 3,
        instr_at(rest, state) matches Some(Instr::Copy { dist, .. }) && dist > out.len(),
    ensures
        decode_rest(rest, out, state, cap) == Err::<Seq<u8>, Error>(Error::LookbehindOverrun),
{
    reveal(step);
}

/// The zero bytes of a stream cut off at `m` are those of the whole
/// stream, as far as the cut leaves them.
pub proof fn lemma_zero_run_cut(s: Seq<u8>, m: int, from: int)
    requires
        0 <= from <= m <= s.len(),
    ensures
        zero_run(s.take(m), from) == if zero_run(s, from) <= m - from {
            zero_run(s, from) as int
        } else {
            m - from
        },
    decreases m - from,
{
    if from < m {
        assert(s.take(m)[from] == s[from]);
        if s[from] == 0 {
            lemma_zero_run_cut(s, m, from + 1);
        }
    }
}

/// The offset behind an instruction's own bytes.
pub open spec fn header_end(instr: Instr) -> int {
    match instr {
        Instr::Literals { count, start } => start,
        Instr::Copy { dist, count, tail, next } => next,
        Instr::End { next } => next,
    }
}

/// An instruction ends within the stream that it was read from, and copies
/// at least one byte.
pub proof fn lemma_instr_within(s: Seq<u8>, state: int)
    requires
        s.len() >= 3,
    ensures
        match instr_at(s, state) {
            None => true,
            Some(Instr::Literals { count, start }) => 1 <= start <= s.len() && 1 <= count,
            Some(Instr::Copy { dist, count, tail, next }) => 2 <= next <= s.len() && 1 <= count && 0 <= tail <= 3
                && 1 <= dist,
            Some(Instr::End { next }) => 3 <= next <= s.len(),
        },
{
}

/// What a stream cut off at `m` holds as its first instruction is what the
/// whole stream holds, unless the cut goes through the instruction.
pub proof fn lemma_instr_cut(s: Seq<u8>, m: int, state: int)
    requires
        3 <= m <= s.len(),
    ensures
        instr_at(s.take(m), state) matches Some(instr) ==> instr_at(s, state) == Some(instr),
{
    let cut = s.take(m);
    assert(cut[0] == s[0]);
    assert(cut[1] == s[1]);
    assert(cut[2] == s[2]);
    lemma_zero_run_cut(s, m, 1);
    let k = zero_run(cut, 1) as int;
    if 1 + k < m {
        assert(cut[1 + k] == s[1 + k]);
        if 2 + k + 2 <= m {
            assert(cut[2 + k] == s[2 + k]);
            assert(cut[2 + k + 1] == s[2 + k + 1]);
        }
    }
}

/// A stream that decodes no longer does once it is cut off: from any
/// instruction boundary on, the decoder finds the input overrun.
pub proof fn lemma_cut_rest_overruns(rest: Seq<u8>, m: int, out: Seq<u8>, state: int, cap: int)
    requires
        0 <= m < rest.len(),
        decode_rest(rest, out, state, cap) is Ok,
    ensures
        decode_rest(rest.take(m), out, state, cap) == Err::<Seq<u8>, Error>(Error::InputOverrun),
    decreases rest.len(),
{
    reveal(step);
    let cut = rest.take(m);
    if m >= 3 {
        lemma_instr_cut(rest, m, state);
        lemma_instr_within(cut, state);
        lemma_instr_within(rest, state);
        match instr_at(cut, state) {
            None => {},
            Some(Instr::Literals { count, start }) => {
                if start + count <= m {
                    let used = start + count;
                    assert(cut.subrange(start, used) =~= rest.subrange(start, used));
                    assert(cut.skip(used) =~= rest.skip(used).take(m - used));
                    lemma_cut_rest_overruns(rest.skip(used), m - used, out + rest.subrange(start, used), 4, cap);
                }
            },
            Some(Instr::Copy { dist, count, tail, next }) => {
                if next + tail <= m {
                    let used = next + tail;
                    assert(cut.subrange(next, used) =~= rest.subrange(next, used));
                    assert(cut.skip(used) =~= rest.skip(used).take(m - used));
                    lemma_cut_rest_overruns(
                        rest.skip(used),
                        m - used,
                        copy_back(out, dist, count) + rest.subrange(next, used),
                        tail,
                        cap,
                    );
                }
            },
            Some(Instr::End { next }) => {},
        }
    }
}

/// Decoding a stream that was cut off at any offset, with the length
/// declared that the whole stream decodes to, fails with an input overrun:
/// nothing shorter than a stream that decodes is taken for it.
pub proof fn lemma_cut_overruns(stream: Seq<u8>, m: int, cap: int)
    requires
        0 <= m < stream.len(),
        decode(stream, cap) is Ok,
    ensures
        decode(stream.take(m), cap) == Err::<Seq<u8>, Error>(Error::InputOverrun),
{
    let cut = stream.take(m);
    if m > 0 {
        assert(cut[0] == stream[0]);
        if stream[0] > 17 {
            let count = stream[0] - 17;
            if 1 + count <= m {
                assert(cut.subrange(1, 1 + count) =~= stream.subrange(1, 1 + count));
                assert(cut.skip(1 + count) =~= stream.skip(1 + count).take(m - 1 - count));
                lemma_cut_rest_overruns(
                    stream.skip(1 + count),
                    m - 1 - count,
                    stream.subrange(1, 1 + count),
                    if count < 4 { count } else { 4 },
                    cap,
                );
            }
        } else {
            lemma_cut_rest_overruns(stream, m, Seq::empty(), 0, cap);
        }
    }
}

/// What a stream fails with where the length declared is not the one that
/// it decodes to: an output overrun for a shorter one, output not consumed
/// for a longer one.
pub open spec fn length_failure(wrong: int, cap: int) -> Error {
    if wrong < cap {
        Error::OutputOverrun
    } else {
        Error::OutputNotConsumed
    }
}

/// From an instruction boundary on, a stream that decodes with one length
/// declared fails with any other.
pub proof fn lemma_rest_wrong_length(rest: Seq<u8>, out: Seq<u8>, state: int, cap: int, wrong: int)
    requires
        decode_rest(rest, out, state, cap) is Ok,
        out.len() <= cap,
        out.len() <= wrong,
        wrong != cap,
    ensures
        decode_rest(rest, out, state, wrong) == Err::<Seq<u8>, Error>(length_failure(wrong, cap)),
    decreases rest.len(),
{
    reveal(step);
    lemma_instr_within(rest, state);
    match step(rest, out, state, cap) {
        Step::Stop(result) => {},
        Step::Next { used, out: grown, state: copied } => {
            match instr_at(rest, state) {
                Some(Instr::Copy { dist, count, tail, next }) => {
                    lemma_copy_back_len(out, dist, count);
                },
                _ => {},
            }
            if grown.len() <= wrong {
                lemma_rest_wrong_length(rest.skip(used), grown, copied, cap, wrong);
            }
        },
    }
}

/// A stream decodes with one declared length only: with a shorter one it
/// overruns the output, with a longer one it leaves output unconsumed.
pub proof fn lemma_wrong_length(stream: Seq<u8>, cap: int, wrong: int)
    requires
        decode(stream, cap) is Ok,
        0 <= cap,
        0 <= wrong,
        wrong != cap,
    ensures
        decode(stream, wrong) == Err::<Seq<u8>, Error>(length_failure(wrong, cap)),
{
    if stream[0] > 17 {
        let count = stream[0] - 17;
        if count <= wrong {
            lemma_rest_wrong_length(
                stream.skip(1 + count),
                stream.subrange(1, 1 + count),
                if count < 4 { count } else { 4 },
                cap,
                wrong,
            );
        }
    } else {
        lemma_rest_wrong_length(stream, Seq::empty(), 0, cap, wrong);
    }
}

/// What decodes from an instruction boundary on has the declared length.
pub proof fn lemma_decode_rest_len(rest: Seq<u8>, out: Seq<u8>, state: int, cap: int)
    requires
        out.len() <= cap,
        decode_rest(rest, out, state, cap) is Ok,
    ensures
        decode_rest(rest, out, state, cap)->Ok_0.len() == cap,
    decreases rest.len(),
{
    reveal(step);
    lemma_instr_within(rest, state);
    match step(rest, out, state, cap) {
        Step::Stop(result) => {},
        Step::Next { used, out: grown, state: copied } => {
            match instr_at(rest, state) {
                Some(Instr::Copy { dist, count, tail, next }) => {
                    lemma_copy_back_len(out, dist, count);
                },
                _ => {},
            }
            lemma_decode_rest_len(rest.skip(used), grown, copied, cap);
        },
    }
}

/// Whatever a stream decodes to has exactly the declared length.
pub proof fn lemma_decode_len(stream: Seq<u8>, cap: int)
    requires
        0 <= cap,
        decode(stream, cap) is Ok,
    ensures
        decode(stream, cap)->Ok_0.len() == cap,
{
    if stream[0] > 17 {
        let count = stream[0] - 17;
        lemma_decode_rest_len(
            stream.skip(1 + count),
            stream.subrange(1, 1 + count),
            if count < 4 { count } else { 4 },
            cap,
        );
    } else {
        lemma_decode_rest_len(stream, Seq::empty(), 0, cap);
    }
}

/// From an instruction boundary on, decoding fails only with an overrun or
/// with input or output that was not consumed.
pub proof fn lemma_decode_rest_failures(rest: Seq<u8>, out: Seq<u8>, state: int, cap: int)
    ensures
        decode_rest(rest, out, state, cap) matches Err(kind) ==> decoding_failure(kind),
    decreases rest.len(),
{
    reveal(step);
    match step(rest, out, state, cap) {
        Step::Stop(result) => {},
        Step::Next { used, out: grown, state: copied } => {
            lemma_instr_within(rest, state);
            lemma_decode_rest_failures(rest.skip(used), grown, copied, cap);
        },
    }
}

/// Decoding fails only with an overrun or with input or output that was not
/// consumed.
pub proof fn lemma_decode_failures(stream: Seq<u8>, cap: int)
    ensures
        decode(stream, cap) matches Err(kind) ==> decoding_failure(kind),
{
    if stream.len() > 0 {
        if stream[0] > 17 {
            let count = stream[0] - 17;
            lemma_decode_rest_failures(
                stream.skip(1 + count),
                stream.subrange(1, 1 + count),
                if count < 4 { count } else { 4 },
                cap,
            );
        } else {
            lemma_decode_rest_failures(stream, Seq::empty(), 0, cap);
        }
    }
}

/// The encoder writes each back-reference of four bytes or more in the
/// shortest form there is: whatever bytes the decoder reads as that
/// back-reference are at least as many.
pub proof fn lemma_shortest_form(s: Seq<u8>, state: int, dist: int, len: int, tail: int, next: int)
    requires
        s.len() >= 3,
        4 <= len,
        instr_at(s, state) == Some(Instr::Copy { dist: dist, count: len, tail: tail, next: next }),
    ensures
        match_bytes(dist, len, tail).len() <= next,
{
    let tag = s[0] as int;
    let k = zero_run(s, 1) as int;
    if 32 <= tag < 64 {
        if len - 2 > 31 {
            lemma_long_form_len(len - 2 - 31);
        }
    } else if 16 <= tag < 32 {
        if len - 2 > 7 {
            lemma_long_form_len(len - 2 - 7);
        }
    }
}

} // verus!
