use vstd::prelude::*;
use crate::error::Error;
use crate::format::{
    copy_back, count_field, decode, decode_rest, decoding_failure, instr_at, lemma_copy_back_len, step, wide_copy,
    zero_run, Instr, Step,
};
use crate::laws::lemma_decode_failures;

verus! {

/// An instruction as the decoder holds it: offsets count from the tag byte.
/// A length may exceed every buffer, so it is kept in 128 bits.
enum Fetched {
    Literals { count: u128, start: usize },
    Copy { dist: usize, count: u128, tail: usize, next: usize },
    End { next: usize },
}

impl Fetched {
    /// The instruction that this value stands for.
    spec fn model(self) -> Instr {
        match self {
            Fetched::Literals { count, start } => Instr::Literals { count: count as int, start: start as int },
            Fetched::Copy { dist, count, tail, next } => Instr::Copy {
                dist: dist as int,
                count: count as int,
                tail: tail as int,
                next: next as int,
            },
            Fetched::End { next } => Instr::End { next: next as int },
        }
    }

    /// The offsets lie within `room` bytes, and the numbers within what the
    /// format can express.
    spec fn within(self, room: int) -> bool {
        match self {
            Fetched::Literals { count, start } => 1 <= start <= room && 1 <= count < 0x1_0000_0000_0000_0000_0000,
            Fetched::Copy { dist, count, tail, next } => 1 <= dist <= 65536 && 2 <= next <= room && tail <= 3 && 1
                <= count < 0x1_0000_0000_0000_0000_0000,
            Fetched::End { next } => 1 <= next <= room,
        }
    }
}

/// Appends `count` bytes of `src`, from `from` on, to `out`.
pub(crate) fn push_literals(out: &mut Vec<u8>, src: &[u8], from: usize, count: usize)
    requires
        from + count <= src@.len(),
    ensures
        final(out)@ == old(out)@ + src@.subrange(from as int, from + count),
{
    let total: usize = src.len();
    let mut done: usize = 0;
    while done < count
        invariant
            done <= count,
            total == src@.len(),
            from + count <= total,
            out@ == old(out)@ + src@.subrange(from as int, from + done),
        decreases count - done,
    {
        out.push(src[from + done]);
        done += 1;
        assert(out@ =~= old(out)@ + src@.subrange(from as int, from + done));
    }
}

/// Appends `count` bytes to `out`, each the byte that lies `dist` behind the
/// end at the moment it is written.
fn push_copy(out: &mut Vec<u8>, dist: usize, count: usize)
    requires
        1 <= dist <= old(out)@.len(),
    ensures
        final(out)@ == copy_back(old(out)@, dist as int, count as int),
{
    let mut done: usize = 0;
    while done < count
        invariant
            done <= count,
            1 <= dist <= out@.len(),
            copy_back(out@, dist as int, count - done) == copy_back(old(out)@, dist as int, count as int),
        decreases count - done,
    {
        let byte: u8 = out[out.len() - dist];
        out.push(byte);
        done += 1;
    }
}

/// Counts the zero bytes that follow the tag byte at `ip`.
fn count_zeros(input: &[u8], ip: usize) -> (k: usize)
    requires
        ip < input@.len(),
    ensures
        k == zero_run(input@.skip(ip as int), 1),
        ip + 1 + k <= input@.len(),
{
    let ghost rest = input@.skip(ip as int);
    let n: usize = input.len();
    let mut k: usize = 0;
    loop
        invariant_except_break
            zero_run(rest, 1) == k + zero_run(rest, 1 + k),
        invariant
            n == input@.len(),
            ip < n,
            rest == input@.skip(ip as int),
            ip + 1 + k <= n,
        ensures
            zero_run(rest, 1) == k,
        decreases n - k,
    {
        if n - ip - 1 == k {
            break;
        }
        if input[ip + 1 + k] != 0 {
            assert(rest[1 + k] == input@[ip + 1 + k]);
            break;
        }
        assert(rest[1 + k] == input@[ip + 1 + k]);
        k += 1;
    }
    k
}

/// Reads a length field: `field` where it is not zero, else the long form
/// behind the tag at `ip`.
fn read_count(input: &[u8], ip: usize, field: u8, inline_max: u8) -> (r: Option<(u128, usize)>)
    requires
        ip < input@.len(),
    ensures
        match r {
            None => count_field(input@.skip(ip as int), field as int, inline_max as int) is None,
            Some((n, at)) => count_field(input@.skip(ip as int), field as int, inline_max as int)
                == Some((n as int, at as int)) && 1 <= at && ip + at <= input@.len() && 1 <= n
                < 0x1_0000_0000_0000_0000_000,
        },
{
    if field != 0 {
        Some((field as u128, 1))
    } else {
        let k: usize = count_zeros(input, ip);
        if input.len() - ip - 1 == k {
            None
        } else {
            let last: u8 = input[ip + 1 + k];
            let n: u128 = inline_max as u128 + 255 * (k as u128) + last as u128;
            Some((n, 2 + k))
        }
    }
}

/// Reads the two-byte distance field at offset `at` behind the tag at `ip`.
fn read_wide(input: &[u8], ip: usize, count: u128, at: usize, far: Option<usize>) -> (r: Option<Fetched>)
    requires
        1 <= at,
        ip + at <= input@.len(),
        far matches Some(high) ==> high <= 16384,
        1 <= count < 0x1_0000_0000_0000_0000_0000,
    ensures
        r matches Some(f) ==> f.within(input@.len() - ip),
        match r {
            None => wide_copy(
                input@.skip(ip as int),
                count as int,
                at as int,
                match far { None => None, Some(high) => Some(high as int) },
            ) is None,
            Some(f) => wide_copy(
                input@.skip(ip as int),
                count as int,
                at as int,
                match far { None => None, Some(high) => Some(high as int) },
            ) == Some(f.model()),
        },
{
    if input.len() - ip - at < 2 {
        None
    } else {
        let low: usize = input[ip + at] as usize;
        let high_byte: usize = input[ip + at + 1] as usize;
        let field: usize = low + 256 * high_byte;
        match far {
            None => Some(Fetched::Copy { dist: 1 + field / 4, count: count, tail: field % 4, next: at + 2 }),
            Some(high) => {
                if high + field / 4 == 0 {
                    Some(Fetched::End { next: at + 2 })
                } else {
                    Some(Fetched::Copy { dist: 16384 + high + field / 4, count: count, tail: field % 4, next: at + 2 })
                }
            },
        }
    }
}

/// Reads the instruction whose tag byte stands at `ip`.
fn read_instr(input: &[u8], ip: usize, state: u8) -> (r: Option<Fetched>)
    requires
        ip + 3 <= input@.len(),
        state <= 4,
    ensures
        r matches Some(f) ==> f.within(input@.len() - ip),
        match r {
            None => instr_at(input@.skip(ip as int), state as int) is None,
            Some(f) => instr_at(input@.skip(ip as int), state as int) == Some(f.model()),
        },
{
    let tag: u8 = input[ip];
    let second: usize = input[ip + 1] as usize;
    let wide: usize = (tag / 4) as usize;
    let tail: usize = (tag % 4) as usize;
    if tag >= 64 {
        Some(Fetched::Copy { dist: 1 + wide % 8 + 8 * second, count: 1 + (tag / 32) as u128, tail: tail, next: 2 })
    } else if tag >= 32 {
        match read_count(input, ip, tag % 32, 31) {
            None => None,
            Some((n, at)) => read_wide(input, ip, 2 + n, at, None),
        }
    } else if tag >= 16 {
        let high: usize = 16384 * ((tag / 8) % 2) as usize;
        match read_count(input, ip, tag % 8, 7) {
            None => None,
            Some((n, at)) => read_wide(input, ip, 2 + n, at, Some(high)),
        }
    } else if state == 0 {
        match read_count(input, ip, tag, 15) {
            None => None,
            Some((n, at)) => Some(Fetched::Literals { count: 3 + n, start: at }),
        }
    } else if state == 4 {
        Some(Fetched::Copy { dist: 2049 + wide + 4 * second, count: 3, tail: tail, next: 2 })
    } else {
        Some(Fetched::Copy { dist: 1 + wide + 4 * second, count: 2, tail: tail, next: 2 })
    }
}

/// What the end marker finds: the output must have the declared length.
pub open spec fn filled(produced: int, declared: int) -> Result<(), Error> {
    if produced < declared {
        Err(Error::OutputNotConsumed)
    } else if produced > declared {
        Err(Error::OutputOverrun)
    } else {
        Ok(())
    }
}

/// Tests at the end marker that `produced` bytes are the `declared` ones:
/// fewer leave output unconsumed, more have overrun it.
pub fn check_filled(produced: usize, declared: usize) -> (outcome: Result<(), Error>)
    ensures
        outcome == filled(produced as int, declared as int),
{
    if produced < declared {
        Err(Error::OutputNotConsumed)
    } else if produced > declared {
        Err(Error::OutputOverrun)
    } else {
        Ok(())
    }
}

/// Where the decoder stands after one instruction.
enum Advance {
    /// At the next instruction, `ip`, after `state` literals (4 for a run).
    Next { ip: usize, state: u8 },
    /// Past the end marker, with the output complete.
    Finished,
    /// At a test that failed.
    Failed(Error),
}

/// Executes the instruction at `ip`: tests it against the bounds of the
/// stream and of the output, and appends to `out` what it stands for.
fn advance(indata: &[u8], ip: usize, out: &mut Vec<u8>, state: u8, newlen: usize) -> (r: Advance)
    requires
        ip <= indata@.len(),
        old(out)@.len() <= newlen,
        state <= 4,
    ensures
        match r {
            Advance::Next { ip: next, state: copied } => {
                &&& ip < next <= indata@.len()
                &&& copied <= 4
                &&& final(out)@.len() <= newlen
                &&& step(indata@.skip(ip as int), old(out)@, state as int, newlen as int) == (Step::Next {
                    used: next - ip,
                    out: final(out)@,
                    state: copied as int,
                })
            },
            Advance::Finished => {
                &&& final(out)@ == old(out)@
                &&& final(out)@.len() == newlen
                &&& step(indata@.skip(ip as int), old(out)@, state as int, newlen as int) == Step::Stop(
                    Ok(old(out)@),
                )
            },
            Advance::Failed(kind) => step(indata@.skip(ip as int), old(out)@, state as int, newlen as int)
                == Step::Stop(Err(kind)),
        },
{
    proof {
        reveal(step);
    }
    let n: usize = indata.len();
    let ghost rest = indata@.skip(ip as int);
    if n - ip < 3 {
        return Advance::Failed(Error::InputOverrun);
    }
    let room: usize = newlen - out.len();
    match read_instr(indata, ip, state) {
        None => Advance::Failed(Error::InputOverrun),
        Some(Fetched::Literals { count, start }) => {
            if count > room as u128 {
                return Advance::Failed(Error::OutputOverrun);
            }
            if count > (n - ip - start) as u128 {
                return Advance::Failed(Error::InputOverrun);
            }
            let run: usize = count as usize;
            push_literals(out, indata, ip + start, run);
            assert(rest.subrange(start as int, start + run) =~= indata@.subrange(ip + start, ip + start + run));
            Advance::Next { ip: ip + start + run, state: 4 }
        },
        Some(Fetched::Copy { dist, count, tail, next }) => {
            if dist > out.len() {
                return Advance::Failed(Error::LookbehindOverrun);
            }
            if count + tail as u128 > room as u128 {
                return Advance::Failed(Error::OutputOverrun);
            }
            if tail > n - ip - next {
                return Advance::Failed(Error::InputOverrun);
            }
            let span: usize = count as usize;
            proof {
                lemma_copy_back_len(out@, dist as int, span as int);
            }
            push_copy(out, dist, span);
            push_literals(out, indata, ip + next, tail);
            assert(rest.subrange(next as int, next + tail) =~= indata@.subrange(ip + next, ip + next + tail));
            Advance::Next { ip: ip + next + tail, state: tail as u8 }
        },
        Some(Fetched::End { next }) => {
            match check_filled(out.len(), newlen) {
                Ok(()) => {},
                Err(kind) => {
                    return Advance::Failed(kind);
                },
            }
            if next < n - ip {
                return Advance::Failed(Error::InputNotConsumed);
            }
            Advance::Finished
        },
    }
}

/// Decodes `indata`, a whole instruction stream, into the `newlen` bytes that
/// it was made from. Every read and every write is tested against the
/// bounds before it is made, and the first test that fails names the error.
pub fn decompress(indata: &[u8], newlen: usize) -> (result: Result<Vec<u8>, Error>)
    ensures
        match result {
            Ok(data) => decode(indata@, newlen as int) == Ok::<Seq<u8>, Error>(data@) && data@.len() == newlen,
            Err(kind) => decode(indata@, newlen as int) == Err::<Seq<u8>, Error>(kind) && decoding_failure(kind),
        },
{
    proof {
        lemma_decode_failures(indata@, newlen as int);
    }
    let n: usize = indata.len();
    if n == 0 {
        return Err(Error::InputOverrun);
    }
    let mut out: Vec<u8> = Vec::new();
    let mut ip: usize = 0;
    let mut state: u8 = 0;
    let first: u8 = indata[0];
    if first > 17 {
        let count: usize = (first - 17) as usize;
        if count > newlen {
            return Err(Error::OutputOverrun);
        }
        if n - 1 < count {
            return Err(Error::InputOverrun);
        }
        push_literals(&mut out, indata, 1, count);
        ip = 1 + count;
        state = if count < 4 { count as u8 } else { 4 };
        assert(out@ =~= indata@.subrange(1, 1 + count));
    } else {
        assert(indata@.skip(0) =~= indata@);
    }
    loop
        invariant
            n == indata@.len(),
            ip <= n,
            out@.len() <= newlen,
            state <= 4,
            decode_rest(indata@.skip(ip as int), out@, state as int, newlen as int) == decode(
                indata@,
                newlen as int,
            ),
        decreases n - ip,
    {
        match advance(indata, ip, &mut out, state, newlen) {
            Advance::Next { ip: next, state: copied } => {
                assert(indata@.skip(ip as int).skip(next - ip) =~= indata@.skip(next as int));
                ip = next;
                state = copied;
            },
            Advance::Finished => {
                return Ok(out);
            },
            Advance::Failed(kind) => {
                proof {
                    lemma_decode_failures(indata@, newlen as int);
                }
                return Err(kind);
            },
        }
    }
}

} // verus!