use vstd::prelude::*;
use crate::emit::{gap_after, sound_plan, sound_ref, BackRef};

verus! {

/// The input is searched in blocks of at most this many bytes, so that every
/// distance within a block can be expressed.
pub const BLOCK: usize = 49152;

/// No back-reference starts within this many bytes of a block's end.
pub const MARGIN: usize = 20;

/// The number of slots of the table of candidates.
pub const SLOTS: usize = 16384;

/// The four bytes from `at` on as one number, the first byte lowest.
#[verifier::opaque]
pub open spec fn word_at(input: Seq<u8>, at: int) -> int {
    input[at] + 256 * input[at + 1] + 65536 * input[at + 2] + 16777216 * input[at + 3]
}

/// The slot of a four-byte word: the top fourteen bits of its product with
/// a constant, taken in 32 bits.
#[verifier::opaque]
pub open spec fn slot_of(word: int) -> int {
    ((word * 0x1824429d) % 0x1_0000_0000) / 0x4_0000
}

/// The four bytes from `a` on equal those from `b` on.
#[verifier::opaque]
pub open spec fn same_word(input: Seq<u8>, a: int, b: int) -> bool {
    &&& input[a] == input[b]
    &&& input[a + 1] == input[b + 1]
    &&& input[a + 2] == input[b + 2]
    &&& input[a + 3] == input[b + 3]
}

/// How many of the `most` bytes from `a` on equal those from `b` on,
/// counted up to the first that differs.
pub open spec fn common(input: Seq<u8>, a: int, b: int, most: int) -> int
    decreases most,
{
    if most <= 0 || input[a] != input[b] {
        0
    } else {
        1 + common(input, a + 1, b + 1, most - 1)
    }
}

/// The length of the back-reference from `ip` to the candidate `cand`, of
/// which `len` bytes are known to agree. It grows eight bytes at a time and
/// ends at the first byte that differs, or with the first eight that reach
/// `limit`.
pub open spec fn match_len(input: Seq<u8>, cand: int, ip: int, limit: int, len: int) -> int
    decreases limit - ip - len,
{
    let same = common(input, cand + len, ip + len, 8);
    if same < 8 {
        len + same
    } else if ip + len + 8 >= limit {
        len + 8
    } else {
        match_len(input, cand, ip, limit, len + 8)
    }
}

/// A back-reference is at least as long as what was known to agree, and
/// longer by at most eight bytes than the limit allows.
pub proof fn lemma_match_len_grows(input: Seq<u8>, cand: int, ip: int, limit: int, len: int)
    ensures
        len <= match_len(input, cand, ip, limit, len),
        ip + len + 8 <= limit + 11 ==> ip + match_len(input, cand, ip, limit, len) <= limit + 11,
    decreases limit - ip - len,
{
    lemma_common_bounds(input, cand + len, ip + len, 8);
    let same = common(input, cand + len, ip + len, 8);
    if same >= 8 && ip + len + 8 < limit {
        lemma_match_len_grows(input, cand, ip, limit, len + 8);
    }
}

/// The count of agreeing bytes lies within what was asked, and just so many
/// bytes agree.
pub proof fn lemma_common_bounds(input: Seq<u8>, a: int, b: int, most: int)
    requires
        0 <= most,
    ensures
        0 <= common(input, a, b, most) <= most,
        forall|j: int| 0 <= j < common(input, a, b, most) ==> #[trigger] input[a + j] == input[b + j],
    decreases most,
{
    if most > 0 && input[a] == input[b] {
        lemma_common_bounds(input, a + 1, b + 1, most - 1);
        assert forall|j: int| 0 <= j < common(input, a, b, most) implies #[trigger] input[a + j] == input[b
            + j] by {
            if j > 0 {
                assert(input[a + 1 + (j - 1)] == input[b + 1 + (j - 1)]);
            }
        }
    }
}

/// The table of candidates at the start of a block: every slot names the
/// block's first byte.
pub open spec fn fresh_table() -> Seq<u16> {
    Seq::new(SLOTS as nat, |i: int| 0u16)
}

/// The table after the positions from `from` up to `to` have been entered,
/// each in the slot of its four bytes.
pub open spec fn indexed(input: Seq<u8>, base: int, table: Seq<u16>, from: int, to: int) -> Seq<u16>
    decreases to - from,
{
    if from >= to {
        table
    } else {
        indexed(input, base, table.update(slot_of(word_at(input, from)), (from - base) as u16), from + 1, to)
    }
}

/// The back-references found in one block from `ip` on. The block starts at
/// `base`, and no back-reference starts at or behind `limit`. `table` names
/// for each slot the last position entered with it, counted from `base`.
/// Each position is looked up and entered. One whose four bytes equal
/// those at its slot's candidate starts a back-reference, whose other
/// positions are entered too, and the search goes on behind it; from any
/// other position the search moves on by one.
pub open spec fn block_refs(input: Seq<u8>, base: int, limit: int, ip: int, table: Seq<u16>) -> Seq<BackRef>
    decreases (if ip < limit { limit - ip } else { 0 }),
{
    if ip >= limit {
        Seq::empty()
    } else {
        let slot = slot_of(word_at(input, ip));
        let cand = base + table[slot];
        let marked = table.update(slot, (ip - base) as u16);
        if same_word(input, cand, ip) {
            let len = match_len(input, cand, ip, limit, 4);
            proof {
                lemma_match_len_grows(input, cand, ip, limit, 4);
            }
            seq![BackRef { pos: ip as usize, dist: (ip - cand) as usize, len: len as usize }] + block_refs(
                input,
                base,
                limit,
                ip + len,
                indexed(input, base, marked, ip + 1, ip + len),
            )
        } else {
            block_refs(input, base, limit, ip + 1, marked)
        }
    }
}

/// Where the back-references `found` end, or `otherwise` where there are
/// none.
pub open spec fn covered(found: Seq<BackRef>, otherwise: int) -> int {
    if found.len() > 0 {
        found.last().pos + found.last().len
    } else {
        otherwise
    }
}

/// The size of the block that starts at `base`.
pub open spec fn block_size(input: Seq<u8>, base: int) -> int {
    if input.len() - base <= BLOCK {
        input.len() - base
    } else {
        BLOCK as int
    }
}

/// Where the search of the block at `base` starts, given `carry` literals not
/// yet written before it: behind the block's first byte, and behind five
/// literals at least.
pub open spec fn first_probe(base: int, carry: int) -> int {
    if carry < 4 {
        base + 5 - carry
    } else {
        base + 1
    }
}

/// The back-references found from the block at `base` on, where the last
/// `carry` bytes before `base` are literals not yet written. A rest of at
/// most 20 bytes is not searched.
pub open spec fn plan_from(input: Seq<u8>, base: int, carry: int) -> Seq<BackRef>
    decreases input.len() - base,
{
    let size = block_size(input, base);
    if input.len() - base <= MARGIN {
        Seq::empty()
    } else {
        let found = block_refs(input, base, base + size - MARGIN, first_probe(base, carry), fresh_table());
        found + plan_from(input, base + size, base + size - covered(found, base - carry))
    }
}

/// The back-references that the encoder chooses for `input`.
pub open spec fn plan_of(input: Seq<u8>) -> Seq<BackRef> {
    plan_from(input, 0, 0)
}

/// Every byte of a back-reference agrees with its candidate's, where those
/// known to agree do.
pub proof fn lemma_match_len_agrees(input: Seq<u8>, cand: int, ip: int, limit: int, len: int)
    requires
        0 <= len,
        forall|j: int| 0 <= j < len ==> #[trigger] input[ip + j] == input[cand + j],
    ensures
        forall|j: int|
            0 <= j < match_len(input, cand, ip, limit, len) ==> #[trigger] input[ip + j] == input[cand + j],
    decreases limit - ip - len,
{
    lemma_common_bounds(input, cand + len, ip + len, 8);
    let same = common(input, cand + len, ip + len, 8);
    assert forall|j: int| 0 <= j < len + same implies #[trigger] input[ip + j] == input[cand + j] by {
        if j >= len {
            assert(input[cand + len + (j - len)] == input[ip + len + (j - len)]);
        }
    }
    if same >= 8 && ip + len + 8 < limit {
        lemma_match_len_agrees(input, cand, ip, limit, len + 8);
    }
}

/// Sound back-references of four bytes or more, in ascending order, that do
/// not overlap and lie between `from` and `to`.
pub open spec fn chain(input: Seq<u8>, refs: Seq<BackRef>, from: int, to: int) -> bool {
    &&& forall|i: int|
        0 <= i < refs.len() ==> sound_ref(input, #[trigger] refs[i]) && from <= refs[i].pos && refs[i].pos
            + refs[i].len <= to && 4 <= refs[i].len
    &&& forall|i: int, j: int|
        0 <= i < j < refs.len() ==> (#[trigger] refs[i]).pos + refs[i].len <= (#[trigger] refs[j]).pos
}

/// Two chains in a row are a chain.
pub proof fn lemma_chain_join(input: Seq<u8>, a: Seq<BackRef>, b: Seq<BackRef>, from: int, mid: int, to: int)
    requires
        chain(input, a, from, mid),
        chain(input, b, mid, to),
        from <= mid <= to,
    ensures
        chain(input, a + b, from, to),
{
    let both = a + b;
    assert forall|i: int| 0 <= i < both.len() implies sound_ref(input, #[trigger] both[i]) && from <= both[i].pos
        && both[i].pos + both[i].len <= to && 4 <= both[i].len by {
        if i < a.len() {
            assert(both[i] == a[i]);
        } else {
            assert(both[i] == b[i - a.len()]);
        }
    }
    assert forall|i: int, j: int| 0 <= i < j < both.len() implies (#[trigger] both[i]).pos + both[i].len <= (
    #[trigger] both[j]).pos by {
        if i < a.len() {
            assert(both[i] == a[i]);
        } else {
            assert(both[i] == b[i - a.len()]);
        }
        if j < a.len() {
            assert(both[j] == a[j]);
        } else {
            assert(both[j] == b[j - a.len()]);
        }
    }
}

/// A chain behind the first four bytes is a plan that can be emitted.
pub proof fn lemma_chain_sound(input: Seq<u8>, refs: Seq<BackRef>, from: int)
    requires
        chain(input, refs, from, input.len() as int),
        4 <= from,
    ensures
        sound_plan(input, refs),
{
    assert forall|i: int| 0 <= i < refs.len() implies gap_after(input, refs, i) >= 0 by {
        assert(sound_ref(input, refs[i]));
        if i + 1 < refs.len() {
            assert(refs[i].pos + refs[i].len <= refs[i + 1].pos);
        }
    }
    if refs.len() > 0 {
        assert(sound_ref(input, refs[0]));
    }
}

/// The table names only positions of its block that lie before `ip`.
pub open spec fn table_behind(table: Seq<u16>, base: int, ip: int) -> bool {
    &&& table.len() == SLOTS
    &&& forall|s: int| 0 <= s < SLOTS ==> base + #[trigger] table[s] < ip
}

/// The slot of a word lies within the table.
pub proof fn lemma_slot_bounds(word: int)
    ensures
        0 <= slot_of(word) < SLOTS,
{
    reveal(slot_of);
}

/// Entering positions keeps the table behind what comes next.
pub proof fn lemma_indexed_behind(input: Seq<u8>, base: int, table: Seq<u16>, from: int, to: int)
    requires
        0 <= base < from <= to,
        to - base <= 65535,
        table_behind(table, base, from),
    ensures
        table_behind(indexed(input, base, table, from, to), base, to),
    decreases to - from,
{
    if from < to {
        lemma_slot_bounds(word_at(input, from));
        let marked = table.update(slot_of(word_at(input, from)), (from - base) as u16);
        assert(table_behind(marked, base, from + 1));
        lemma_indexed_behind(input, base, marked, from + 1, to);
    }
}

/// What the search of a block finds is a chain from `ip` on that ends within
/// the block.
pub proof fn lemma_block_chain(input: Seq<u8>, base: int, limit: int, ip: int, table: Seq<u16>)
    requires
        0 <= base < ip,
        limit + MARGIN <= input.len() <= usize::MAX,
        limit - base <= BLOCK - MARGIN,
        table_behind(table, base, ip),
    ensures
        chain(input, block_refs(input, base, limit, ip, table), ip, limit + 11),
    decreases (if ip < limit { limit - ip } else { 0 }),
{
    if ip < limit {
        let slot = slot_of(word_at(input, ip));
        lemma_slot_bounds(word_at(input, ip));
        let cand = base + table[slot];
        let marked = table.update(slot, (ip - base) as u16);
        assert(table_behind(marked, base, ip + 1));
        if same_word(input, cand, ip) {
            let len = match_len(input, cand, ip, limit, 4);
            lemma_match_len_grows(input, cand, ip, limit, 4);
            assert forall|j: int| 0 <= j < 4 implies #[trigger] input[ip + j] == input[cand + j] by {
                reveal(same_word);
            }
            lemma_match_len_agrees(input, cand, ip, limit, 4);
            let r = BackRef { pos: ip as usize, dist: (ip - cand) as usize, len: len as usize };
            assert(sound_ref(input, r)) by {
                assert forall|j: int| 0 <= j < r.len implies #[trigger] input[r.pos + j] == input[r.pos - r.dist
                    + j] by {
                    assert(input[ip + j] == input[cand + j]);
                }
            }
            let entered = indexed(input, base, marked, ip + 1, ip + len);
            lemma_indexed_behind(input, base, marked, ip + 1, ip + len);
            let later = block_refs(input, base, limit, ip + len, entered);
            lemma_block_chain(input, base, limit, ip + len, entered);
            let one = seq![r];
            assert(chain(input, one, ip, ip + len));
            lemma_chain_join(input, one, later, ip, ip + len, limit + 11);
        } else {
            lemma_block_chain(input, base, limit, ip + 1, marked);
        }
    }
}

/// What the search finds from a block on is a chain that starts behind the
/// block's first byte, and behind four literals at least.
pub proof fn lemma_plan_chain(input: Seq<u8>, base: int, carry: int)
    requires
        0 <= carry <= base <= input.len() <= usize::MAX,
    ensures
        chain(input, plan_from(input, base, carry), first_probe(base, carry), input.len() as int),
    decreases input.len() - base,
{
    let size = block_size(input, base);
    if input.len() - base > MARGIN {
        let first = first_probe(base, carry);
        let limit = base + size - MARGIN;
        assert(table_behind(fresh_table(), base, first));
        lemma_block_chain(input, base, limit, first, fresh_table());
        let found = block_refs(input, base, limit, first, fresh_table());
        let end = covered(found, base - carry);
        if found.len() > 0 {
            assert(sound_ref(input, found.last()));
        }
        let later = plan_from(input, base + size, base + size - end);
        lemma_plan_chain(input, base + size, base + size - end);
        assert(chain(input, later, base + size, input.len() as int));
        assert(chain(input, found, first, base + size));
        lemma_chain_join(input, found, later, first, base + size, input.len() as int);
    }
}

/// The back-references that the encoder chooses can be emitted.
pub proof fn lemma_plan_sound(input: Seq<u8>)
    requires
        input.len() <= usize::MAX,
    ensures
        sound_plan(input, plan_of(input)),
{
    lemma_plan_chain(input, 0, 0);
    lemma_chain_sound(input, plan_of(input), 5);
}

/// Computes the slot of the four bytes at `at`.
fn slot_at(input: &[u8], at: usize) -> (slot: usize)
    requires
        at + 4 <= input@.len(),
    ensures
        slot == slot_of(word_at(input@, at as int)),
        slot < SLOTS,
{
    proof {
        reveal(slot_of);
        reveal(word_at);
    }
    let word: u64 = input[at] as u64 + 256 * (input[at + 1] as u64) + 65536 * (input[at + 2] as u64) + 16777216
        * (input[at + 3] as u64);
    let mixed: u64 = (word * 0x1824429d) % 0x1_0000_0000;
    (mixed / 0x4_0000) as usize
}

/// Tells whether the four bytes at `a` equal those at `b`.
fn agree_word(input: &[u8], a: usize, b: usize) -> (same: bool)
    requires
        a + 4 <= input@.len(),
        b + 4 <= input@.len(),
    ensures
        same == same_word(input@, a as int, b as int),
{
    proof {
        reveal(same_word);
    }
    input[a] == input[b] && input[a + 1] == input[b + 1] && input[a + 2] == input[b + 2] && input[a + 3]
        == input[b + 3]
}

/// Counts how many of the eight bytes at `a` equal those at `b`, up to the
/// first that differs.
fn agree_run(input: &[u8], a: usize, b: usize) -> (same: usize)
    requires
        a + 8 <= input@.len(),
        b + 8 <= input@.len(),
    ensures
        same == common(input@, a as int, b as int, 8),
        same <= 8,
{
    let total: usize = input.len();
    let mut same: usize = 0;
    while same < 8 && input[a + same] == input[b + same]
        invariant
            total == input@.len(),
            same <= 8,
            a + 8 <= input@.len(),
            b + 8 <= input@.len(),
            common(input@, a as int, b as int, 8) == same + common(input@, a + same, b + same, 8 - same),
        decreases 8 - same,
    {
        same += 1;
    }
    same
}

/// Finds the length of the back-reference from `ip` to `cand`, whose first
/// four bytes agree.
fn extend(input: &[u8], cand: usize, ip: usize, limit: usize) -> (len: usize)
    requires
        cand < ip < limit,
        limit + MARGIN <= input@.len(),
    ensures
        len == match_len(input@, cand as int, ip as int, limit as int, 4),
        4 <= len,
        ip + len <= limit + 11,
{
    let total: usize = input.len();
    let mut len: usize = 4;
    loop
        invariant
            total == input@.len(),
            cand < ip < limit,
            limit + MARGIN <= input@.len(),
            4 <= len,
            ip + len <= limit + 3,
            match_len(input@, cand as int, ip as int, limit as int, len as int) == match_len(
                input@,
                cand as int,
                ip as int,
                limit as int,
                4,
            ),
        decreases limit + 4 - ip - len,
    {
        let same: usize = agree_run(input, cand + len, ip + len);
        if same < 8 {
            return len + same;
        }
        if limit - ip <= len + 8 {
            return len + 8;
        }
        len += 8;
    }
}

/// Enters the positions from `from` up to `to` into the table.
fn enter(input: &[u8], base: usize, table: &mut Vec<u16>, from: usize, to: usize)
    requires
        base <= from <= to,
        to + 3 <= input@.len(),
        to - base <= 65535,
        old(table)@.len() == SLOTS,
    ensures
        final(table)@ == indexed(input@, base as int, old(table)@, from as int, to as int),
{
    let total: usize = input.len();
    let mut at: usize = from;
    while at < to
        invariant
            total == input@.len(),
            base <= from <= at <= to,
            to + 3 <= total,
            to - base <= 65535,
            table@.len() == SLOTS,
            indexed(input@, base as int, table@, at as int, to as int) == indexed(
                input@,
                base as int,
                old(table)@,
                from as int,
                to as int,
            ),
        decreases to - at,
    {
        let slot: usize = slot_at(input, at);
        table.set(slot, (at - base) as u16);
        at += 1;
    }
}

/// Searches the block of `size` bytes at `base` from `first` on, and appends
/// to `plan` the back-references found.
fn search_block(input: &[u8], base: usize, size: usize, first: usize, plan: &mut Vec<BackRef>)
    requires
        MARGIN < size <= BLOCK,
        base + size <= input@.len(),
        base < first <= base + 5,
    ensures
        final(plan)@ == old(plan)@ + block_refs(
            input@,
            base as int,
            base + size - MARGIN,
            first as int,
            fresh_table(),
        ),
{
    let total: usize = input.len();
    let limit: usize = base + size - MARGIN;
    let mut table: Vec<u16> = vec![0u16; SLOTS];
    let mut ip: usize = first;
    let ghost goal = old(plan)@ + block_refs(input@, base as int, limit as int, first as int, fresh_table());
    proof {
        assert(table@ =~= fresh_table());
    }
    while ip < limit
        invariant
            total == input@.len(),
            limit == base + size - MARGIN,
            MARGIN < size <= BLOCK,
            base + size <= total,
            base < ip <= limit + 11,
            table_behind(table@, base as int, ip as int),
            plan@ + block_refs(input@, base as int, limit as int, ip as int, table@) == goal,
        decreases limit + 11 - ip,
    {
        let slot: usize = slot_at(input, ip);
        let cand: usize = base + table[slot] as usize;
        let ghost before = table@;
        let ghost found = plan@;
        let ghost unfolded = block_refs(input@, base as int, limit as int, ip as int, before);
        table.set(slot, (ip - base) as u16);
        assert(table_behind(table@, base as int, ip + 1));
        if agree_word(input, cand, ip) {
            let len: usize = extend(input, cand, ip, limit);
            let ghost marked = table@;
            enter(input, base, &mut table, ip + 1, ip + len);
            plan.push(BackRef { pos: ip, dist: ip - cand, len: len });
            proof {
                lemma_indexed_behind(input@, base as int, marked, ip + 1, ip + len);
                let later = block_refs(input@, base as int, limit as int, ip + len, table@);
                assert(unfolded == seq![BackRef { pos: ip, dist: (ip - cand) as usize, len: len }] + later);
                assert(plan@ + later =~= found + unfolded);
            }
            ip = ip + len;
        } else {
            ip = ip + 1;
        }
    }
}

/// Chooses the back-references for `input`: block by block, at each
/// position the candidate that the table names, taken where its first four
/// bytes agree.
pub fn find_plan(input: &[u8]) -> (plan: Vec<BackRef>)
    ensures
        plan@ == plan_of(input@),
        sound_plan(input@, plan@),
{
    let n: usize = input.len();
    let mut plan: Vec<BackRef> = Vec::new();
    let mut base: usize = 0;
    let mut carry: usize = 0;
    proof {
        lemma_plan_sound(input@);
    }
    loop
        invariant_except_break
            plan@ + plan_from(input@, base as int, carry as int) == plan_of(input@),
        invariant
            n == input@.len(),
            carry <= base <= n,
        ensures
            plan@ == plan_of(input@),
        decreases n - base,
    {
        let left: usize = n - base;
        if left <= MARGIN {
            proof {
                assert(plan@ + Seq::<BackRef>::empty() =~= plan@);
            }
            break;
        }
        let size: usize = if left <= BLOCK { left } else { BLOCK };
        let before: usize = plan.len();
        let first: usize = if carry < 4 { base + 5 - carry } else { base + 1 };
        let ghost earlier = plan@;
        let ghost found = block_refs(input@, base as int, base + size - MARGIN, first as int, fresh_table());
        proof {
            assert(table_behind(fresh_table(), base as int, first as int));
            lemma_block_chain(input@, base as int, base + size - MARGIN, first as int, fresh_table());
            if found.len() > 0 {
                assert(sound_ref(input@, found.last()));
            }
        }
        search_block(input, base, size, first, &mut plan);
        let end: usize = if plan.len() > before {
            plan[plan.len() - 1].pos + plan[plan.len() - 1].len
        } else {
            base - carry
        };
        proof {
            assert(plan@ == earlier + found);
            assert(end == covered(found, base - carry));
            let later = plan_from(input@, base + size, base + size - end);
            assert(plan@ + later =~= earlier + (found + later));
        }
        carry = base + size - end;
        base = base + size;
    }
    plan
}

} // verus!
