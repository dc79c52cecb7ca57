use vstd::prelude::*;
use crate::emit::{
    emit_from, gap_after, match_bytes, run_bytes, sound_plan, sound_ref, start_at, tail_of, BackRef,
};
use crate::encode::stream_of;
use crate::inverse::lemma_long_form_len;
use crate::plan::{lemma_chain_sound, lemma_plan_chain, plan_of};

verus! {

/// The most bytes that the stream of an input of `len` bytes can take: a
/// sixteenth more than the input, and 67.
pub open spec fn worst_case(len: int) -> int {
    len + len / 16 + 64 + 3
}

/// The size of a buffer that holds the stream of any input of `inlen`
/// bytes, or nothing where that size is beyond what the machine can count.
pub fn worst_case_len(inlen: usize) -> (bound: Option<usize>)
    ensures
        match bound {
            Some(size) => size == worst_case(inlen as int),
            None => worst_case(inlen as int) > usize::MAX,
        },
{
    let extra: usize = inlen / 16 + 67;
    if inlen > usize::MAX - extra {
        None
    } else {
        Some(inlen + extra)
    }
}

/// A back-reference of four bytes or more takes fewer bytes than it stands
/// for.
pub proof fn lemma_match_bytes_len(dist: int, len: int, tail: int)
    requires
        1 <= dist,
        4 <= len,
    ensures
        2 <= match_bytes(dist, len, tail).len() <= len - 1,
{
    if len <= 8 && dist <= 2048 {
    } else if dist <= 16384 {
        if len - 2 > 31 {
            lemma_long_form_len(len - 2 - 31);
        }
    } else {
        if len - 2 > 7 {
            lemma_long_form_len(len - 2 - 7);
        }
    }
}

/// A literal run takes its bytes, and for its tag at most one byte and a
/// sixteenth of its length.
pub proof fn lemma_run_bytes_len(input: Seq<u8>, at: int, count: int)
    requires
        0 <= at,
        0 <= count,
        at + count <= input.len(),
    ensures
        run_bytes(input, at, count).len() <= count + (if count <= 3 { 0 } else { 1 + count / 16 }),
{
    if count > 3 + 15 {
        lemma_long_form_len(count - 3 - 15);
    }
}

/// From any back-reference on, the stream takes at most three bytes more
/// than the input that it stands for and a sixteenth of it.
pub proof fn lemma_emit_from_bound(input: Seq<u8>, plan: Seq<BackRef>, i: int)
    requires
        sound_plan(input, plan),
        forall|k: int| 0 <= k < plan.len() ==> 4 <= (#[trigger] plan[k]).len,
        0 <= i <= plan.len(),
    ensures
        emit_from(input, plan, i).len() <= 3 + (input.len() - start_at(input, plan, i)) + (input.len() - start_at(
            input,
            plan,
            i,
        )) / 16,
    decreases plan.len() - i,
{
    if i < plan.len() {
        let r = plan[i];
        let gap = gap_after(input, plan, i);
        assert(sound_ref(input, r));
        assert(gap >= 0);
        lemma_match_bytes_len(r.dist as int, r.len as int, tail_of(gap));
        lemma_run_bytes_len(input, r.pos + r.len, gap);
        lemma_emit_from_bound(input, plan, i + 1);
        assert(start_at(input, plan, i + 1) == r.pos + r.len + gap);
    }
}

/// The stream of an input never takes more than the worst case for the
/// input's length.
pub proof fn lemma_stream_bound(input: Seq<u8>)
    requires
        input.len() <= usize::MAX,
    ensures
        stream_of(input).len() <= worst_case(input.len() as int),
{
    let plan = plan_of(input);
    lemma_plan_chain(input, 0, 0);
    lemma_chain_sound(input, plan, 5);
    lemma_emit_from_bound(input, plan, 0);
    if plan.len() == 0 {
        if input.len() > 238 {
            lemma_run_bytes_len(input, 0, input.len() as int);
        }
    } else {
        assert(sound_ref(input, plan[0]));
        lemma_run_bytes_len(input, 0, plan[0].pos as int);
    }
}

} // verus!
