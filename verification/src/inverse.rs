use vstd::prelude::*;
use crate::emit::{
    count_bytes, emit, emit_from, end_bytes, gap_after, long_form, match_bytes, next_pos, run_bytes, sound_plan,
    sound_ref, start_at, wide_bytes, BackRef,
};
use crate::error::Error;
use crate::format::{copy_back, count_field, decode, decode_rest, instr_at, step, wide_copy, zero_run, Instr, Step};

verus! {

/// The bytes of `piece` stand in `s` from offset `at` on.
pub open spec fn holds(s: Seq<u8>, at: int, piece: Seq<u8>) -> bool {
    &&& 0 <= at
    &&& at + piece.len() <= s.len()
    &&& forall|j: int| 0 <= j < piece.len() ==> s[at + j] == #[trigger] piece[j]
}

/// What holds two pieces in a row holds each of them.
pub proof fn lemma_holds_split(s: Seq<u8>, at: int, p: Seq<u8>, q: Seq<u8>)
    requires
        holds(s, at, p + q),
    ensures
        holds(s, at, p),
        holds(s, at + p.len(), q),
{
    assert forall|j: int| 0 <= j < p.len() implies s[at + j] == #[trigger] p[j] by {
        assert((p + q)[j] == p[j]);
    }
    assert forall|j: int| 0 <= j < q.len() implies s[at + p.len() + j] == #[trigger] q[j] by {
        assert((p + q)[p.len() + j] == q[j]);
    }
}

/// A sequence holds its own front.
pub proof fn lemma_holds_front(p: Seq<u8>, x: Seq<u8>)
    ensures
        holds(p + x, 0, p),
{
}

/// The long form of a length has one byte for each 255 begun.
pub proof fn lemma_long_form_len(x: int)
    requires
        1 <= x,
    ensures
        long_form(x).len() == (x - 1) / 255 + 1,
    decreases x,
{
    if x > 255 {
        lemma_long_form_len(x - 255);
    }
}

/// Reading back a long form: the zero bytes number one for each 255, and
/// the byte behind them is the remainder.
pub proof fn lemma_long_form_read(s: Seq<u8>, from: int, x: int)
    requires
        1 <= x,
        holds(s, from, long_form(x)),
    ensures
        from + zero_run(s, from) < s.len(),
        255 * zero_run(s, from) + s[from + zero_run(s, from)] == x,
        zero_run(s, from) + 1 == long_form(x).len(),
    decreases x,
{
    if x > 255 {
        let tail = long_form(x - 255);
        lemma_holds_split(s, from, seq![0u8], tail);
        assert(seq![0u8][0] == 0u8);
        assert(s[from + 0] == 0u8);
        lemma_long_form_read(s, from + 1, x - 255);
    } else {
        assert(long_form(x)[0] == x as u8);
        assert(s[from + 0] == x as u8);
    }
}

/// Reading back a tag's length field.
pub proof fn lemma_count_field_read(s: Seq<u8>, marker: int, count: int, inline_max: int)
    requires
        1 <= count,
        0 <= marker,
        1 <= inline_max,
        marker + inline_max <= 255,
        holds(s, 0, count_bytes(marker, count, inline_max)),
    ensures
        s[0] == marker + (if count <= inline_max { count } else { 0 }),
        count_field(s, if count <= inline_max { count } else { 0 }, inline_max) == Some(
            (count, count_bytes(marker, count, inline_max).len() as int),
        ),
{
    let piece = count_bytes(marker, count, inline_max);
    if count <= inline_max {
        assert(piece[0] == (marker + count) as u8);
        assert(s[0int + 0] == piece[0]);
    } else {
        lemma_holds_split(s, 0, seq![marker as u8], long_form(count - inline_max));
        assert(seq![marker as u8][0] == marker as u8);
        assert(s[0int + 0] == marker as u8);
        lemma_long_form_read(s, 1, count - inline_max);
    }
}

/// Reading back a two-byte distance field.
pub proof fn lemma_wide_read(s: Seq<u8>, at: int, field: int, tail: int)
    requires
        0 <= field < 32768,
        0 <= tail <= 3,
        holds(s, at, wide_bytes(field, tail)),
    ensures
        at + 2 <= s.len(),
        (s[at] + 256 * s[at + 1]) / 4 == field % 16384,
        (s[at] + 256 * s[at + 1]) % 4 == tail,
{
    let piece = wide_bytes(field, tail);
    assert(piece[0] == ((field % 64) * 4 + tail) as u8);
    assert(piece[1] == ((field / 64) % 256) as u8);
    assert(s[at + 0] == piece[0]);
    assert(s[at + 1] == piece[1]);
}

/// The arithmetic of the short form: the tag and the byte behind it give
/// back the distance, the length and the number of literals.
proof fn lemma_short_fields(dist: int, len: int, tail: int)
    requires
        1 <= dist <= 2048,
        3 <= len <= 8,
        0 <= tail <= 3,
    ensures
        ({
            let tag = (len - 1) * 32 + ((dist - 1) % 8) * 4 + tail;
            let second = (dist - 1) / 8;
            &&& 64 <= tag <= 255
            &&& 0 <= second <= 255
            &&& 1 + (tag / 4) % 8 + 8 * second == dist
            &&& 1 + tag / 32 == len
            &&& tag % 4 == tail
        }),
{
}

/// Reading back a back-reference in the short form.
proof fn lemma_short_read(s: Seq<u8>, dist: int, len: int, tail: int, state: int)
    requires
        1 <= dist <= 2048,
        3 <= len <= 8,
        0 <= tail <= 3,
        holds(s, 0, match_bytes(dist, len, tail)),
    ensures
        instr_at(s, state) == Some(Instr::Copy { dist: dist, count: len, tail: tail, next: 2 }),
        match_bytes(dist, len, tail).len() == 2,
{
    let piece = match_bytes(dist, len, tail);
    lemma_short_fields(dist, len, tail);
    assert(piece[0] == ((len - 1) * 32 + ((dist - 1) % 8) * 4 + tail) as u8);
    assert(piece[1] == ((dist - 1) / 8) as u8);
    assert(s[0int + 0] == piece[0]);
    assert(s[0int + 1] == piece[1]);
}

/// Reading back a back-reference in the form for distances up to 16 KiB.
proof fn lemma_near_read(s: Seq<u8>, dist: int, len: int, tail: int, state: int)
    requires
        1 <= dist <= 16384,
        3 <= len,
        !(len <= 8 && dist <= 2048),
        0 <= tail <= 3,
        holds(s, 0, match_bytes(dist, len, tail)),
    ensures
        instr_at(s, state) == Some(
            Instr::Copy { dist: dist, count: len, tail: tail, next: match_bytes(dist, len, tail).len() as int },
        ),
        match_bytes(dist, len, tail).len() >= 3,
{
    let head = count_bytes(32, len - 2, 31);
    lemma_holds_split(s, 0, head, wide_bytes(dist - 1, tail));
    lemma_count_field_read(s, 32, len - 2, 31);
    lemma_wide_read(s, head.len() as int, dist - 1, tail);
    let tag = s[0] as int;
    let field = if len - 2 <= 31 { len - 2 } else { 0 };
    assert(tag == 32 + field);
    assert(tag % 32 == field);
    assert(count_field(s, tag % 32, 31) == Some((len - 2, head.len() as int)));
    assert(wide_copy(s, len, head.len() as int, None) == Some(
        Instr::Copy { dist: dist, count: len, tail: tail, next: (head.len() + 2) as int },
    ));
}

/// Reading back a back-reference in the form for distances over 16 KiB.
proof fn lemma_far_read(s: Seq<u8>, dist: int, len: int, tail: int, state: int)
    requires
        16384 < dist <= 49151,
        3 <= len,
        0 <= tail <= 3,
        holds(s, 0, match_bytes(dist, len, tail)),
    ensures
        instr_at(s, state) == Some(
            Instr::Copy { dist: dist, count: len, tail: tail, next: match_bytes(dist, len, tail).len() as int },
        ),
        match_bytes(dist, len, tail).len() >= 3,
{
    let over = dist - 16384;
    let far = over / 16384;
    assert(far == 0 || far == 1);
    let head = count_bytes(16 + 8 * far, len - 2, 7);
    lemma_holds_split(s, 0, head, wide_bytes(over, tail));
    lemma_count_field_read(s, 16 + 8 * far, len - 2, 7);
    lemma_wide_read(s, head.len() as int, over, tail);
    let tag = s[0] as int;
    let field = if len - 2 <= 7 { len - 2 } else { 0 };
    assert(tag == 16 + 8 * far + field);
    assert(tag % 8 == field);
    assert((tag / 8) % 2 == far);
    assert(count_field(s, tag % 8, 7) == Some((len - 2, head.len() as int)));
    assert(16384 * far + over % 16384 == over);
    assert(wide_copy(s, len, head.len() as int, Some(16384 * far)) == Some(
        Instr::Copy { dist: dist, count: len, tail: tail, next: (head.len() + 2) as int },
    ));
}

/// Reading back a back-reference: the decoder finds the distance, the
/// length and the number of literals that the encoder wrote, whatever came
/// before.
pub proof fn lemma_match_read(s: Seq<u8>, dist: int, len: int, tail: int, state: int)
    requires
        1 <= dist <= 49151,
        3 <= len,
        0 <= tail <= 3,
        holds(s, 0, match_bytes(dist, len, tail)),
    ensures
        instr_at(s, state) == Some(
            Instr::Copy { dist: dist, count: len, tail: tail, next: match_bytes(dist, len, tail).len() as int },
        ),
        match_bytes(dist, len, tail).len() >= 2,
{
    if len <= 8 && dist <= 2048 {
        lemma_short_read(s, dist, len, tail, state);
    } else if dist <= 16384 {
        lemma_near_read(s, dist, len, tail, state);
    } else {
        lemma_far_read(s, dist, len, tail, state);
    }
}

/// Reading back the tag of a literal run.
pub proof fn lemma_run_read(s: Seq<u8>, count: int)
    requires
        4 <= count,
        holds(s, 0, count_bytes(0, count - 3, 15)),
    ensures
        instr_at(s, 0) == Some(
            Instr::Literals { count: count, start: count_bytes(0, count - 3, 15).len() as int },
        ),
        s[0] <= 15,
        count_bytes(0, count - 3, 15).len() >= 1,
{
    lemma_count_field_read(s, 0, count - 3, 15);
}

/// Reading back the end marker.
pub proof fn lemma_end_read(s: Seq<u8>, state: int)
    requires
        holds(s, 0, end_bytes()),
    ensures
        instr_at(s, state) == Some(Instr::End { next: 3 }),
{
    let piece = end_bytes();
    assert(s[0int + 0] == piece[0]);
    assert(s[0int + 1] == piece[1]);
    assert(s[0int + 2] == piece[2]);
}

/// A back-reference into bytes that repeat reproduces the input: where the
/// output is the first `pos` bytes of `input` and the next `count` bytes
/// equal those `dist` before them, the copy gives the first `pos + count`.
pub proof fn lemma_copy_back_repeats(input: Seq<u8>, pos: int, dist: int, count: int)
    requires
        1 <= dist <= pos,
        0 <= count,
        pos + count <= input.len(),
        forall|j: int| 0 <= j < count ==> #[trigger] input[pos + j] == input[pos - dist + j],
    ensures
        copy_back(input.take(pos), dist, count) == input.take(pos + count),
    decreases count,
{
    if count > 0 {
        let out = input.take(pos);
        assert(input[pos + 0] == input[pos - dist + 0]);
        assert(out.push(out[out.len() - dist]) =~= input.take(pos + 1));
        assert forall|j: int| 0 <= j < count - 1 implies #[trigger] input[pos + 1 + j] == input[pos + 1 - dist
            + j] by {
            assert(input[pos + (j + 1)] == input[pos - dist + (j + 1)]);
        }
        lemma_copy_back_repeats(input, pos + 1, dist, count - 1);
    }
}

/// One step of the decoder over a back-reference that the encoder wrote:
/// from the first `pos` bytes of the input it reaches the first
/// `pos + len + tail`, and stands behind the back-reference's literals.
pub proof fn lemma_copy_step(input: Seq<u8>, r: BackRef, tail: int, after: Seq<u8>, state: int)
    requires
        sound_ref(input, r),
        0 <= tail <= 3,
        r.pos + r.len + tail <= input.len(),
        after.len() >= 3,
    ensures
        ({
            let piece = match_bytes(r.dist as int, r.len as int, tail) + input.subrange(
                r.pos + r.len,
                r.pos + r.len + tail,
            );
            &&& step(piece + after, input.take(r.pos as int), state, input.len() as int) == (Step::Next {
                used: piece.len() as int,
                out: input.take(r.pos + r.len + tail),
                state: tail,
            })
            &&& (piece + after).skip(piece.len() as int) == after
        }),
{
    let head = match_bytes(r.dist as int, r.len as int, tail);
    let lits = input.subrange(r.pos + r.len, r.pos + r.len + tail);
    let piece = head + lits;
    let rest = piece + after;
    let out = input.take(r.pos as int);
    lemma_holds_front(piece, after);
    lemma_holds_split(rest, 0, head, lits);
    lemma_match_read(rest, r.dist as int, r.len as int, tail, state);
    lemma_copy_back_repeats(input, r.pos as int, r.dist as int, r.len as int);
    reveal(step);
    let next = head.len() as int;
    assert(rest.subrange(next, next + tail) =~= lits) by {
        assert forall|j: int| 0 <= j < tail implies rest.subrange(next, next + tail)[j] == lits[j] by {
            assert(rest[next + j] == lits[j]);
        }
    }
    assert(input.take(r.pos + r.len) + lits =~= input.take(r.pos + r.len + tail));
    assert(rest.skip(piece.len() as int) =~= after);
}

/// One step of the decoder over a literal run that the encoder wrote.
pub proof fn lemma_run_step(input: Seq<u8>, at: int, count: int, after: Seq<u8>)
    requires
        0 <= at,
        4 <= count,
        at + count <= input.len(),
        after.len() >= 3,
    ensures
        ({
            let piece = run_bytes(input, at, count);
            &&& step(piece + after, input.take(at), 0, input.len() as int) == (Step::Next {
                used: piece.len() as int,
                out: input.take(at + count),
                state: 4,
            })
            &&& (piece + after).skip(piece.len() as int) == after
            &&& (piece + after)[0] <= 15
        }),
{
    let head = count_bytes(0, count - 3, 15);
    let lits = input.subrange(at, at + count);
    let piece = head + lits;
    let rest = piece + after;
    lemma_holds_front(piece, after);
    lemma_holds_split(rest, 0, head, lits);
    lemma_run_read(rest, count);
    reveal(step);
    let start = head.len() as int;
    assert(rest.subrange(start, start + count) =~= lits) by {
        assert forall|j: int| 0 <= j < count implies rest.subrange(start, start + count)[j] == lits[j] by {
            assert(rest[start + j] == lits[j]);
        }
    }
    assert(input.take(at) + lits =~= input.take(at + count));
    assert(rest.skip(piece.len() as int) =~= after);
}

/// The stream always holds the end marker's three bytes at least.
pub proof fn lemma_emit_from_len(input: Seq<u8>, plan: Seq<BackRef>, i: int)
    ensures
        emit_from(input, plan, i).len() >= 3,
    decreases plan.len() - i,
{
    if 0 <= i < plan.len() {
        lemma_emit_from_len(input, plan, i + 1);
    }
}

/// Decoding a back-reference with at most three literals behind it takes
/// the decoder to the next back-reference.
proof fn lemma_bare_gap_decodes(input: Seq<u8>, plan: Seq<BackRef>, i: int, state: int)
    requires
        sound_plan(input, plan),
        0 <= i < plan.len(),
        gap_after(input, plan, i) <= 3,
    ensures
        decode_rest(emit_from(input, plan, i), input.take(plan[i].pos as int), state, input.len() as int)
            == decode_rest(
            emit_from(input, plan, i + 1),
            input.take(next_pos(input, plan, i)),
            gap_after(input, plan, i),
            input.len() as int,
        ),
{
    let r = plan[i];
    let gap = gap_after(input, plan, i);
    let later = emit_from(input, plan, i + 1);
    assert(sound_ref(input, r));
    assert(gap >= 0);
    if i + 1 < plan.len() {
        assert(sound_ref(input, plan[i + 1]));
    }
    lemma_emit_from_len(input, plan, i + 1);
    lemma_copy_step(input, r, gap, later, state);
    let cap = input.len() as int;
    let rest = emit_from(input, plan, i);
    let piece = match_bytes(r.dist as int, r.len as int, gap) + input.subrange(r.pos + r.len, r.pos + r.len + gap);
    assert(rest == piece + later);
    assert(step(rest, input.take(r.pos as int), state, cap) == (Step::Next {
        used: piece.len() as int,
        out: input.take(r.pos + r.len + gap),
        state: gap,
    }));
    assert(rest.skip(piece.len() as int) == later);
}

/// Decoding a back-reference with a literal run behind it takes the decoder
/// to the next back-reference.
proof fn lemma_run_gap_decodes(input: Seq<u8>, plan: Seq<BackRef>, i: int, state: int)
    requires
        sound_plan(input, plan),
        0 <= i < plan.len(),
        gap_after(input, plan, i) > 3,
    ensures
        decode_rest(emit_from(input, plan, i), input.take(plan[i].pos as int), state, input.len() as int)
            == decode_rest(
            emit_from(input, plan, i + 1),
            input.take(next_pos(input, plan, i)),
            4,
            input.len() as int,
        ),
{
    let r = plan[i];
    let gap = gap_after(input, plan, i);
    let end = r.pos + r.len;
    let head = match_bytes(r.dist as int, r.len as int, 0);
    let run = run_bytes(input, end, gap);
    let later = emit_from(input, plan, i + 1);
    let mid = run + later;
    assert(sound_ref(input, r));
    if i + 1 < plan.len() {
        assert(sound_ref(input, plan[i + 1]));
    }
    lemma_emit_from_len(input, plan, i + 1);
    let cap = input.len() as int;
    let rest = emit_from(input, plan, i);
    lemma_copy_step(input, r, 0, mid, state);
    assert(head + input.subrange(end, end + 0) =~= head);
    assert(head + mid =~= rest);
    assert(step(rest, input.take(r.pos as int), state, cap) == (Step::Next {
        used: head.len() as int,
        out: input.take(end),
        state: 0,
    }));
    assert(rest.skip(head.len() as int) == mid);
    assert(decode_rest(rest, input.take(r.pos as int), state, cap) == decode_rest(mid, input.take(end), 0, cap));
    lemma_run_step(input, end, gap, later);
    assert(step(mid, input.take(end), 0, cap) == (Step::Next {
        used: run.len() as int,
        out: input.take(end + gap),
        state: 4,
    }));
    assert(mid.skip(run.len() as int) == later);
    assert(decode_rest(mid, input.take(end), 0, cap) == decode_rest(later, input.take(end + gap), 4, cap));
}

/// From any back-reference on, the stream of a sound plan decodes to the
/// input, given the input before that back-reference as the output so far.
pub proof fn lemma_emit_from_decodes(input: Seq<u8>, plan: Seq<BackRef>, i: int, state: int)
    requires
        sound_plan(input, plan),
        0 <= i <= plan.len(),
    ensures
        decode_rest(emit_from(input, plan, i), input.take(start_at(input, plan, i)), state, input.len() as int)
            == Ok::<Seq<u8>, Error>(input),
    decreases plan.len() - i,
{
    let cap = input.len() as int;
    if i == plan.len() {
        lemma_end_read(end_bytes(), state);
        reveal(step);
        assert(input.take(cap) =~= input);
    } else {
        let gap = gap_after(input, plan, i);
        if gap <= 3 {
            lemma_bare_gap_decodes(input, plan, i, state);
            lemma_emit_from_decodes(input, plan, i + 1, gap);
        } else {
            lemma_run_gap_decodes(input, plan, i, state);
            lemma_emit_from_decodes(input, plan, i + 1, 4);
        }
    }
}

/// The stream of a sound plan decodes to the input.
pub proof fn lemma_emit_decodes(input: Seq<u8>, plan: Seq<BackRef>)
    requires
        sound_plan(input, plan),
    ensures
        decode(emit(input, plan), input.len() as int) == Ok::<Seq<u8>, Error>(input),
{
    let cap = input.len() as int;
    let later = emit_from(input, plan, 0);
    let stream = emit(input, plan);
    lemma_emit_from_len(input, plan, 0);
    if plan.len() == 0 {
        if cap == 0 {
            lemma_emit_from_decodes(input, plan, 0, 0);
            assert(stream =~= later);
            assert(later[0] == 17u8);
            assert(input.take(cap) =~= Seq::<u8>::empty());
        } else if cap <= 238 {
            lemma_emit_from_decodes(input, plan, 0, if cap < 4 { cap } else { 4 });
            assert(stream[0] == (17 + cap) as u8);
            assert(stream.skip(1 + cap) =~= later);
            assert(stream.subrange(1, 1 + cap) =~= input);
            assert(input.take(cap) =~= input);
        } else {
            lemma_emit_from_decodes(input, plan, 0, 4);
            lemma_run_step(input, 0, cap, later);
            assert(input.take(0) =~= Seq::<u8>::empty());
        }
    } else {
        assert(sound_ref(input, plan[0]));
        lemma_emit_from_decodes(input, plan, 0, 4);
        lemma_run_step(input, 0, plan[0].pos as int, later);
        assert(input.take(0) =~= Seq::<u8>::empty());
    }
}

} // verus!
