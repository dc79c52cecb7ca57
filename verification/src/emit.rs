use vstd::prelude::*;
use crate::decode::push_literals;

verus! {

/// A back-reference that the encoder has chosen: the `len` bytes of the
/// input from `pos` on repeat those that lie `dist` bytes before them.
#[derive(Debug, Clone, Copy, PartialEq, Eq, Structural)]
pub struct BackRef {
    pub pos: usize,
    pub dist: usize,
    pub len: usize,
}

/// The bytes of a length that did not fit its tag: one zero byte for each
/// 255, then what is left, which is 1 to 255.
pub open spec fn long_form(x: int) -> Seq<u8>
    decreases x,
{
    if x > 255 {
        seq![0u8] + long_form(x - 255)
    } else {
        seq![x as u8]
    }
}

/// A tag byte with its length field: `count` in the tag where it is at most
/// `inline_max`, else a zero field and the long form of what exceeds it.
pub open spec fn count_bytes(marker: int, count: int, inline_max: int) -> Seq<u8> {
    if count <= inline_max {
        seq![(marker + count) as u8]
    } else {
        seq![marker as u8] + long_form(count - inline_max)
    }
}

/// The two bytes of a fourteen-bit distance field `field` whose low two bits
/// hold `tail`, the number of literals that follow.
pub open spec fn wide_bytes(field: int, tail: int) -> Seq<u8> {
    seq![((field % 64) * 4 + tail) as u8, ((field / 64) % 256) as u8]
}

/// The bytes of a back-reference of `len` bytes at distance `dist`, followed
/// by `tail` literals: the shortest of the three forms that can hold it.
pub open spec fn match_bytes(dist: int, len: int, tail: int) -> Seq<u8> {
    if len <= 8 && dist <= 2048 {
        seq![((len - 1) * 32 + ((dist - 1) % 8) * 4 + tail) as u8, ((dist - 1) / 8) as u8]
    } else if dist <= 16384 {
        count_bytes(32, len - 2, 31) + wide_bytes(dist - 1, tail)
    } else {
        count_bytes(16 + 8 * ((dist - 16384) / 16384), len - 2, 7) + wide_bytes(dist - 16384, tail)
    }
}

/// The bytes of `count` literals that stand in the input from `at` on: up to
/// three follow a back-reference bare, more get a tag of their own.
pub open spec fn run_bytes(input: Seq<u8>, at: int, count: int) -> Seq<u8> {
    if count <= 3 {
        input.subrange(at, at + count)
    } else {
        count_bytes(0, count - 3, 15) + input.subrange(at, at + count)
    }
}

/// The end marker.
pub open spec fn end_bytes() -> Seq<u8> {
    seq![17u8, 0u8, 0u8]
}

/// Where the literals behind back-reference `i` end: at the next
/// back-reference, or at the end of the input.
pub open spec fn next_pos(input: Seq<u8>, plan: Seq<BackRef>, i: int) -> int {
    if i + 1 < plan.len() {
        plan[i + 1].pos as int
    } else {
        input.len() as int
    }
}

/// Where back-reference `i` starts, or the end of the input behind the
/// last.
pub open spec fn start_at(input: Seq<u8>, plan: Seq<BackRef>, i: int) -> int {
    next_pos(input, plan, i - 1)
}

/// The number of literals between back-reference `i` and the next.
pub open spec fn gap_after(input: Seq<u8>, plan: Seq<BackRef>, i: int) -> int {
    next_pos(input, plan, i) - (plan[i].pos + plan[i].len)
}

/// The number of literals that back-reference `i` announces in its own
/// bytes: the gap behind it where that is at most three.
pub open spec fn tail_of(gap: int) -> int {
    if gap <= 3 {
        gap
    } else {
        0
    }
}

/// The stream from back-reference `i` on: each back-reference with the
/// literals behind it, and the end marker.
pub open spec fn emit_from(input: Seq<u8>, plan: Seq<BackRef>, i: int) -> Seq<u8>
    decreases plan.len() - i,
{
    if i < 0 || i >= plan.len() {
        end_bytes()
    } else {
        let gap = gap_after(input, plan, i);
        match_bytes(plan[i].dist as int, plan[i].len as int, tail_of(gap)) + run_bytes(
            input,
            plan[i].pos + plan[i].len,
            gap,
        ) + emit_from(input, plan, i + 1)
    }
}

/// The literals that open the stream. An input of at most 238 bytes without
/// any back-reference gets the one-byte form that only a first byte can
/// have; any other opening run is a literal run like those further on.
pub open spec fn lead_bytes(input: Seq<u8>, plan: Seq<BackRef>) -> Seq<u8> {
    if plan.len() == 0 {
        if input.len() == 0 {
            Seq::empty()
        } else if input.len() <= 238 {
            seq![(17 + input.len()) as u8] + input
        } else {
            run_bytes(input, 0, input.len() as int)
        }
    } else {
        run_bytes(input, 0, plan[0].pos as int)
    }
}

/// The whole stream for `input` with the back-references of `plan`.
pub open spec fn emit(input: Seq<u8>, plan: Seq<BackRef>) -> Seq<u8> {
    lead_bytes(input, plan) + emit_from(input, plan, 0)
}

/// A back-reference that the format can express and that tells the truth:
/// it lies within the input, starts at or behind its distance, and each of
/// its bytes equals the one that lies `dist` before.
pub open spec fn sound_ref(input: Seq<u8>, r: BackRef) -> bool {
    &&& 1 <= r.dist <= r.pos
    &&& r.dist <= 49151
    &&& 3 <= r.len
    &&& r.pos + r.len <= input.len()
    &&& forall|j: int| 0 <= j < r.len ==> #[trigger] input[r.pos + j] == input[r.pos - r.dist + j]
}

/// A plan that can be emitted: sound back-references in ascending order that
/// do not overlap, the first of them behind at least four literals.
pub open spec fn sound_plan(input: Seq<u8>, plan: Seq<BackRef>) -> bool {
    &&& forall|i: int| 0 <= i < plan.len() ==> sound_ref(input, #[trigger] plan[i])
    &&& forall|i: int| 0 <= i < plan.len() ==> gap_after(input, plan, i) >= 0
    &&& plan.len() > 0 ==> plan[0].pos >= 4
}

/// Appends the long form of `x`.
fn write_long(out: &mut Vec<u8>, x: usize)
    requires
        1 <= x,
    ensures
        final(out)@ == old(out)@ + long_form(x as int),
{
    let mut left: usize = x;
    while left > 255
        invariant
            1 <= left <= x,
            out@ + long_form(left as int) == old(out)@ + long_form(x as int),
        decreases left,
    {
        proof {
            assert(out@.push(0u8) + long_form(left - 255) =~= out@ + long_form(left as int));
        }
        out.push(0);
        left -= 255;
    }
    proof {
        assert(out@.push(left as u8) =~= out@ + long_form(left as int));
    }
    out.push(left as u8);
}

/// Appends a tag byte with its length field.
fn write_count(out: &mut Vec<u8>, marker: u8, count: usize, inline_max: u8)
    requires
        1 <= count,
        marker + inline_max <= 255,
    ensures
        final(out)@ == old(out)@ + count_bytes(marker as int, count as int, inline_max as int),
{
    if count <= inline_max as usize {
        proof {
            assert(out@.push((marker + count) as u8) =~= out@ + count_bytes(
                marker as int,
                count as int,
                inline_max as int,
            ));
        }
        out.push(marker + count as u8);
    } else {
        let ghost before = out@;
        out.push(marker);
        write_long(out, count - inline_max as usize);
        proof {
            assert(out@ =~= before + count_bytes(marker as int, count as int, inline_max as int));
        }
    }
}

/// Appends a two-byte distance field.
fn write_wide(out: &mut Vec<u8>, field: usize, tail: usize)
    requires
        field < 32768,
        tail <= 3,
    ensures
        final(out)@ == old(out)@ + wide_bytes(field as int, tail as int),
{
    let ghost before = out@;
    out.push(((field % 64) * 4 + tail) as u8);
    out.push(((field / 64) % 256) as u8);
    proof {
        assert(out@ =~= before + wide_bytes(field as int, tail as int));
    }
}

/// Appends a back-reference in the shortest form that can hold it.
fn write_match(out: &mut Vec<u8>, dist: usize, len: usize, tail: usize)
    requires
        1 <= dist <= 49151,
        3 <= len,
        tail <= 3,
    ensures
        final(out)@ == old(out)@ + match_bytes(dist as int, len as int, tail as int),
{
    let ghost before = out@;
    if len <= 8 && dist <= 2048 {
        out.push(((len - 1) * 32 + ((dist - 1) % 8) * 4 + tail) as u8);
        out.push(((dist - 1) / 8) as u8);
    } else if dist <= 16384 {
        write_count(out, 32, len - 2, 31);
        write_wide(out, dist - 1, tail);
    } else {
        let over: usize = dist - 16384;
        write_count(out, 16 + 8 * (over / 16384) as u8, len - 2, 7);
        write_wide(out, over, tail);
    }
    proof {
        assert(out@ =~= before + match_bytes(dist as int, len as int, tail as int));
    }
}

/// Appends `count` literals of the input, with a tag where they need one.
fn write_run(out: &mut Vec<u8>, input: &[u8], at: usize, count: usize)
    requires
        at + count <= input@.len(),
    ensures
        final(out)@ == old(out)@ + run_bytes(input@, at as int, count as int),
{
    let ghost before = out@;
    if count > 3 {
        write_count(out, 0, count - 3, 15);
    }
    push_literals(out, input, at, count);
    proof {
        assert(out@ =~= before + run_bytes(input@, at as int, count as int));
    }
}

/// Writes the stream for `input` with the back-references of `plan`.
pub fn emit_stream(input: &[u8], plan: &Vec<BackRef>) -> (out: Vec<u8>)
    requires
        sound_plan(input@, plan@),
    ensures
        out@ == emit(input@, plan@),
{
    let n: usize = input.len();
    let count: usize = plan.len();
    let mut out: Vec<u8> = Vec::new();
    if count == 0 {
        if n == 0 {
        } else if n <= 238 {
            out.push((17 + n) as u8);
            push_literals(&mut out, input, 0, n);
            proof {
                assert(input@.subrange(0, n as int) =~= input@);
            }
        } else {
            write_run(&mut out, input, 0, n);
        }
    } else {
        write_run(&mut out, input, 0, plan[0].pos);
    }
    proof {
        assert(out@ =~= lead_bytes(input@, plan@));
    }
    let mut i: usize = 0;
    while i < count
        invariant
            n == input@.len(),
            count == plan@.len(),
            i <= count,
            sound_plan(input@, plan@),
            out@ + emit_from(input@, plan@, i as int) == emit(input@, plan@),
        decreases count - i,
    {
        let r: BackRef = plan[i];
        let next: usize = if i + 1 < count { plan[i + 1].pos } else { n };
        proof {
            assert(sound_ref(input@, plan@[i as int]));
            assert(gap_after(input@, plan@, i as int) >= 0);
            assert(next == next_pos(input@, plan@, i as int));
            if i + 1 < count {
                assert(sound_ref(input@, plan@[i + 1]));
            }
        }
        let end: usize = r.pos + r.len;
        let gap: usize = next - end;
        let tail: usize = if gap <= 3 { gap } else { 0 };
        let ghost before = out@;
        write_match(&mut out, r.dist, r.len, tail);
        write_run(&mut out, input, end, gap);
        proof {
            let later = emit_from(input@, plan@, i + 1);
            assert(out@ + later =~= before + emit_from(input@, plan@, i as int));
        }
        i += 1;
    }
    let ghost before = out@;
    out.push(17);
    out.push(0);
    out.push(0);
    proof {
        assert(out@ =~= before + emit_from(input@, plan@, count as int));
    }
    out
}

} // verus!
