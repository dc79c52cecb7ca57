use vstd::prelude::*;
use crate::error::Error;

verus! {

/// One instruction of the stream, as the decoder reads it from the front of
/// the bytes that are left. Offsets count from the instruction's tag byte.
pub enum Instr {
    /// A literal run: `count` bytes that stand in the stream from `start` on.
    Literals { count: int, start: int },
    /// A back-reference of `count` bytes that lie `dist` bytes behind the
    /// output cursor, followed by `tail` literal bytes (0 to 3) that stand
    /// in the stream from `next` on.
    Copy { dist: int, count: int, tail: int, next: int },
    /// The end marker, whose last byte stands before `next`.
    End { next: int },
}

/// How many zero bytes stand in `s` from `from` on without a break.
pub open spec fn zero_run(s: Seq<u8>, from: int) -> nat
    decreases s.len() - from,
{
    if 0 <= from < s.len() && s[from] == 0 {
        1 + zero_run(s, from + 1)
    } else {
        0
    }
}

/// A length that did not fit its tag: the zero bytes from offset 1 on
/// count 255 each, and the first other byte is added to `base`. The result
/// is the length and the offset behind its last byte; `None` where the
/// stream ends before a byte other than zero.
pub open spec fn long_count(s: Seq<u8>, base: int) -> Option<(int, int)> {
    let k = zero_run(s, 1) as int;
    if 1 + k >= s.len() {
        None
    } else {
        Some((base + 255 * k + s[1 + k], 2 + k))
    }
}

/// The length that a tag's length field `field` stands for: itself, or, where
/// it is zero, the long form behind the tag. `inline_max` is the largest
/// value that the field holds. The result is the length, before the format's
/// constant is added, and the offset behind the length's last byte.
pub open spec fn count_field(s: Seq<u8>, field: int, inline_max: int) -> Option<(int, int)> {
    if field != 0 {
        Some((field, 1))
    } else {
        long_count(s, inline_max)
    }
}

/// A back-reference with a two-byte distance field at offset `at`: the low
/// two bits are the number of literals that follow, the other fourteen the
/// distance, to which `far` is added. A far distance of zero is the end
/// marker.
pub open spec fn wide_copy(s: Seq<u8>, count: int, at: int, far: Option<int>) -> Option<Instr> {
    if at + 2 > s.len() {
        None
    } else {
        let field = s[at] + 256 * s[at + 1];
        match far {
            None => Some(Instr::Copy { dist: 1 + field / 4, count: count, tail: field % 4, next: at + 2 }),
            Some(high) => if high + field / 4 == 0 {
                Some(Instr::End { next: at + 2 })
            } else {
                Some(Instr::Copy { dist: 16384 + high + field / 4, count: count, tail: field % 4, next: at + 2 })
            },
        }
    }
}

/// The instruction at the front of `s`, which holds at least three bytes.
/// `state` is the number of literals that the instruction before copied, 4
/// standing for a literal run: a tag under 16 is a literal run after no
/// literal, a two-byte copy from nearby after one to three, and a three-byte
/// copy from beyond 2 KiB after a run. `None` where the stream ends within
/// the instruction's own bytes.
pub open spec fn instr_at(s: Seq<u8>, state: int) -> Option<Instr>
    recommends
        s.len() >= 3,
        0 <= state <= 4,
{
    let tag = s[0] as int;
    if tag >= 64 {
        Some(Instr::Copy { dist: 1 + (tag / 4) % 8 + 8 * s[1], count: 1 + tag / 32, tail: tag % 4, next: 2 })
    } else if tag >= 32 {
        match count_field(s, tag % 32, 31) {
            None => None,
            Some((n, at)) => wide_copy(s, 2 + n, at, None),
        }
    } else if tag >= 16 {
        match count_field(s, tag % 8, 7) {
            None => None,
            Some((n, at)) => wide_copy(s, 2 + n, at, Some(16384 * ((tag / 8) % 2))),
        }
    } else if state == 0 {
        match count_field(s, tag, 15) {
            None => None,
            Some((n, at)) => Some(Instr::Literals { count: 3 + n, start: at }),
        }
    } else if state == 4 {
        Some(Instr::Copy { dist: 2049 + tag / 4 + 4 * s[1], count: 3, tail: tag % 4, next: 2 })
    } else {
        Some(Instr::Copy { dist: 1 + tag / 4 + 4 * s[1], count: 2, tail: tag % 4, next: 2 })
    }
}

/// The output after a back-reference: `count` times the byte that lies
/// `dist` behind the end is appended, so that a copy may read what it has
/// itself just written.
pub open spec fn copy_back(out: Seq<u8>, dist: int, count: int) -> Seq<u8>
    recommends
        1 <= dist <= out.len(),
    decreases count,
{
    if count <= 0 {
        out
    } else {
        copy_back(out.push(out[out.len() - dist]), dist, count - 1)
    }
}

/// A back-reference lengthens the output by its count.
pub proof fn lemma_copy_back_len(out: Seq<u8>, dist: int, count: int)
    requires
        0 <= count,
    ensures
        copy_back(out, dist, count).len() == out.len() + count,
    decreases count,
{
    if count > 0 {
        lemma_copy_back_len(out.push(out[out.len() - dist]), dist, count - 1);
    }
}

/// What one instruction does to the decoder.
pub enum Step {
    /// The instruction took `used` bytes of the stream and left the output
    /// `out`; `state` is the number of literals it copied, 4 for a run.
    Next { used: int, out: Seq<u8>, state: int },
    /// Decoding ends here, with the output or with an error.
    Stop(Result<Seq<u8>, Error>),
}

/// The effect of the instruction at the front of `rest` on the output `out`,
/// where the whole output is declared `cap` bytes long. Each test stands
/// before the reads and writes that it guards, in this order: the stream
/// holds a whole header; a back-reference starts within the output; the
/// output has room for all that the instruction writes; the stream holds
/// the literals that it copies. At the end marker the output must be
/// complete and the stream used up.
#[verifier::opaque]
pub open spec fn step(rest: Seq<u8>, out: Seq<u8>, state: int, cap: int) -> Step {
    if rest.len() < 3 {
        Step::Stop(Err(Error::InputOverrun))
    } else {
        match instr_at(rest, state) {
            None => Step::Stop(Err(Error::InputOverrun)),
            Some(Instr::Literals { count, start }) => {
                if out.len() + count > cap {
                    Step::Stop(Err(Error::OutputOverrun))
                } else if start + count > rest.len() {
                    Step::Stop(Err(Error::InputOverrun))
                } else {
                    Step::Next {
                        used: start + count,
                        out: out + rest.subrange(start, start + count),
                        state: 4,
                    }
                }
            },
            Some(Instr::Copy { dist, count, tail, next }) => {
                if dist > out.len() {
                    Step::Stop(Err(Error::LookbehindOverrun))
                } else if out.len() + count + tail > cap {
                    Step::Stop(Err(Error::OutputOverrun))
                } else if next + tail > rest.len() {
                    Step::Stop(Err(Error::InputOverrun))
                } else {
                    Step::Next {
                        used: next + tail,
                        out: copy_back(out, dist, count) + rest.subrange(next, next + tail),
                        state: tail,
                    }
                }
            },
            Some(Instr::End { next }) => {
                if out.len() < cap {
                    Step::Stop(Err(Error::OutputNotConsumed))
                } else if next < rest.len() {
                    Step::Stop(Err(Error::InputNotConsumed))
                } else {
                    Step::Stop(Ok(out))
                }
            },
        }
    }
}

/// What decoding gives from an instruction boundary on: `rest` is the
/// stream that is left, `out` the output so far, `state` the number of
/// literals that the last instruction copied (4 for a run), and `cap` the
/// declared length of the whole output.
pub open spec fn decode_rest(rest: Seq<u8>, out: Seq<u8>, state: int, cap: int) -> Result<Seq<u8>, Error>
    decreases rest.len(),
{
    match step(rest, out, state, cap) {
        Step::Stop(result) => result,
        Step::Next { used, out: grown, state: copied } => {
            proof {
                reveal(step);
            }
            decode_rest(rest.skip(used), grown, copied, cap)
        },
    }
}

/// The failure kinds that decoding can end with.
pub open spec fn decoding_failure(kind: Error) -> bool {
    ||| kind == Error::InputOverrun
    ||| kind == Error::OutputOverrun
    ||| kind == Error::LookbehindOverrun
    ||| kind == Error::InputNotConsumed
    ||| kind == Error::OutputNotConsumed
}

/// What a whole stream decodes to when the output is declared `cap` bytes
/// long. A first byte over 17 stands for a literal run of its value less 17;
/// any other stream starts at an instruction boundary with no literal
/// before it.
pub open spec fn decode(stream: Seq<u8>, cap: int) -> Result<Seq<u8>, Error> {
    if stream.len() == 0 {
        Err(Error::InputOverrun)
    } else if stream[0] > 17 {
        let count = stream[0] - 17;
        if count > cap {
            Err(Error::OutputOverrun)
        } else if 1 + count > stream.len() {
            Err(Error::InputOverrun)
        } else {
            decode_rest(
                stream.skip(1 + count),
                stream.subrange(1, 1 + count),
                if count < 4 { count } else { 4 },
                cap,
            )
        }
    } else {
        decode_rest(stream, Seq::empty(), 0, cap)
    }
}

} // verus!
