//! That appending keeps a bitmap in step with the integers it was given:
//! the buffer decodes to exactly those integers and stays compact.
use vstd::prelude::*;
use crate::word::{
    ALL_ZEROS_LITERAL, ALL_ONES_LITERAL, SEQUENCE_BIT, LENGTH_MASK, MAX_ALLOWED_INTEGER,
    MAX_RUN_BLOCKS, is_literal_word, literal_bits, stored_length, fill_of, bit_at, top_bit,
    word_blocks, single_literal, lemma_run_word, lemma_named_words, lemma_top_bit, lemma_set_bit,
    lemma_single_literal, lemma_empty_pattern,
};
use crate::model::{
    expand, fill_blocks, block_values, decode_blocks, decode, absorb, uniform_fill, literal_merge,
    fill_merge, append_step, first_words, raise_tail, open_block, mergeable, canonical,
    tail_holds, tracks, appended, strictly_increasing,
};
use crate::merge::{
    lemma_expand_push, lemma_expand_last, lemma_absorb_blocks, lemma_canonical_push,
    lemma_canonical_update, lemma_canonical_drop_last, lemma_literal_merge_blocks,
    lemma_literal_merge_canonical, lemma_fill_merge_blocks, lemma_fill_merge_canonical,
};

verus! {

/// Two patterns that agree on their first `n` positions have the same
/// members there.
pub proof fn lemma_block_values_agree(a: u32, b: u32, n: int, base: int)
    requires
        forall|q: int| 0 <= q < n ==> bit_at(a, q) == bit_at(b, q),
    ensures
        block_values(a, n, base) == block_values(b, n, base),
    decreases n,
{
    if n > 0 {
        lemma_block_values_agree(a, b, n - 1, base);
    }
}

/// Positions that are not set add no member.
pub proof fn lemma_block_values_clear(b: u32, k: int, n: int, base: int)
    requires
        0 <= k <= n,
        forall|q: int| k <= q < n ==> !bit_at(b, q),
    ensures
        block_values(b, n, base) == block_values(b, k, base),
    decreases n,
{
    if n > k {
        lemma_block_values_clear(b, k, n - 1, base);
    }
}

/// A block has at most one member for each position.
pub proof fn lemma_block_values_len(b: u32, n: int, base: int)
    requires
        0 <= n,
    ensures
        block_values(b, n, base).len() <= n,
    decreases n,
{
    if n > 0 {
        lemma_block_values_len(b, n - 1, base);
    }
}

/// The highest member of a block comes last.
pub proof fn lemma_block_values_top(b: u32, p: int, base: int)
    requires
        top_bit(b, p),
        p < 31,
    ensures
        block_values(b, 31, base) == block_values(b, p, base).push(base + p),
{
    assert forall|q: int| p + 1 <= q < 31 implies !bit_at(b, q) by {
        lemma_top_bit(b, p as u32, q as u32);
    }
    lemma_block_values_clear(b, p + 1, 31, base);
    lemma_top_bit(b, p as u32, p as u32);
}

/// The empty block has no member.
pub proof fn lemma_block_values_empty(base: int)
    ensures
        block_values(0, 31, base) == Seq::<int>::empty(),
{
    assert forall|q: int| 0 <= q < 31 implies !bit_at(0, q) by {
        lemma_empty_pattern(q as u32);
    }
    lemma_block_values_clear(0, 0, 31, base);
}

/// Setting a position above the highest member of a block adds that
/// position as the last member.
pub proof fn lemma_block_values_raise(b: u32, raised: u32, p: int, o: int, base: int)
    requires
        top_bit(b, p),
        top_bit(raised, o),
        p < o < 31,
        forall|q: int| 0 <= q < o ==> bit_at(raised, q) == bit_at(b, q),
    ensures
        block_values(raised, 31, base) == block_values(b, 31, base).push(base + o),
{
    lemma_block_values_top(raised, o, base);
    lemma_block_values_agree(raised, b, o, base);
    assert forall|q: int| o <= q < 31 implies !bit_at(b, q) by {
        lemma_top_bit(b, p as u32, q as u32);
    }
    lemma_block_values_clear(b, o, 31, base);
}

/// A block with one position set has that one member.
pub proof fn lemma_block_values_single(b: u32, bit: int, base: int)
    requires
        top_bit(b, bit),
        bit < 31,
        forall|q: int| 0 <= q < bit ==> !bit_at(b, q),
    ensures
        block_values(b, 31, base) == seq![base + bit],
{
    lemma_block_values_top(b, bit, base);
    lemma_block_values_clear(b, 0, bit, base);
    assert(Seq::<int>::empty().push(base + bit) =~= seq![base + bit]);
}

/// A block behind others adds its members behind theirs.
pub proof fn lemma_decode_blocks_push(bs: Seq<u32>, b: u32)
    ensures
        decode_blocks(bs.push(b)) == decode_blocks(bs) + block_values(b, 31, 31 * (bs.len() as int)),
{
    assert(bs.push(b).drop_last() =~= bs);
}

/// Empty blocks behind others add no member.
pub proof fn lemma_decode_zero_blocks(bs: Seq<u32>, n: nat)
    ensures
        decode_blocks(bs + fill_blocks(0, n)) == decode_blocks(bs),
    decreases n,
{
    lemma_named_words();
    if n == 0 {
        assert(bs + fill_blocks(0, n) =~= bs);
    } else {
        let shorter = bs + fill_blocks(0, (n - 1) as nat);
        lemma_decode_zero_blocks(bs, (n - 1) as nat);
        assert(bs + fill_blocks(0, n) =~= shorter.push(0));
        lemma_decode_blocks_push(shorter, 0);
        lemma_block_values_empty(31 * (shorter.len() as int));
        assert(decode_blocks(shorter) + Seq::<int>::empty() =~= decode_blocks(shorter));
    }
}

/// There are at most 31 members for each block.
pub proof fn lemma_decode_blocks_len(bs: Seq<u32>)
    ensures
        decode_blocks(bs).len() <= 31 * bs.len(),
    decreases bs.len(),
{
    if bs.len() > 0 {
        lemma_decode_blocks_len(bs.drop_last());
        lemma_block_values_len(bs.last(), 31, 31 * (bs.len() - 1));
    }
}

/// Some empty blocks and then a block with one position set add that one
/// member.
pub proof fn lemma_decode_new_block(bs: Seq<u32>, skip: nat, b: u32, bit: int)
    requires
        top_bit(b, bit),
        bit < 31,
        forall|q: int| 0 <= q < bit ==> !bit_at(b, q),
    ensures
        decode_blocks((bs + fill_blocks(0, skip)).push(b)) == decode_blocks(bs).push(
            31 * (bs.len() + skip) + bit,
        ),
{
    let gap = bs + fill_blocks(0, skip);
    lemma_decode_zero_blocks(bs, skip);
    lemma_decode_blocks_push(gap, b);
    lemma_block_values_single(b, bit, 31 * (gap.len() as int));
    assert(decode_blocks(bs) + seq![31 * gap.len() + bit] =~= decode_blocks(bs).push(
        31 * (bs.len() + skip) + bit,
    ));
}

/// The positions of the literal that holds one position alone.
pub proof fn lemma_single_literal_bits(bit: int)
    requires
        0 <= bit < 31,
    ensures
        is_literal_word(single_literal(bit)),
        uniform_fill(single_literal(bit)) is None,
        top_bit(literal_bits(single_literal(bit)), bit),
        forall|q: int| 0 <= q < bit ==> !bit_at(literal_bits(single_literal(bit)), q),
        word_blocks(single_literal(bit)) == seq![literal_bits(single_literal(bit))],
        forall|a: u32| !mergeable(a, single_literal(bit)),
{
    lemma_single_literal(bit as u32, 0);
    assert forall|q: int| 0 <= q < bit implies !bit_at(literal_bits(single_literal(bit)), q) by {
        lemma_single_literal(bit as u32, q as u32);
    }
    assert(word_blocks(single_literal(bit)) =~= seq![literal_bits(single_literal(bit))]);
}

/// The first buffer of a bitmap is compact, ends with the block of its
/// member and decodes to that member.
pub proof fn lemma_first_words(v: int)
    requires
        0 <= v <= MAX_ALLOWED_INTEGER,
    ensures
        tracks(first_words(v), v),
        first_words(v).len() > 0,
        decode(first_words(v)) == seq![v],
{
    let empty = Seq::<u32>::empty();
    let next = first_words(v);
    let blocks = v / 31;
    let bit = v % 31;
    let literal = single_literal(bit);
    let b = literal_bits(literal);
    lemma_single_literal_bits(bit);
    lemma_named_words();
    assert(expand(empty) =~= Seq::<u32>::empty());
    assert(decode_blocks(Seq::<u32>::empty()) =~= Seq::<int>::empty());
    if blocks == 0 {
        assert(next =~= empty.push(literal));
        lemma_expand_push(empty, literal);
        assert(expand(next) =~= (Seq::<u32>::empty() + fill_blocks(0, 0)).push(b));
        lemma_decode_new_block(Seq::empty(), 0, b, bit);
        lemma_canonical_push(empty, literal);
    } else {
        let head = if blocks == 1 {
            ALL_ZEROS_LITERAL
        } else {
            (blocks - 1) as u32
        };
        if blocks > 1 {
            lemma_run_word(0, (blocks - 1) as u32, 0);
        }
        assert(word_blocks(head) =~= fill_blocks(0, blocks as nat));
        assert(next =~= empty.push(head).push(literal));
        lemma_expand_push(empty, head);
        lemma_expand_push(empty.push(head), literal);
        assert(expand(next) =~= (Seq::<u32>::empty() + fill_blocks(0, blocks as nat)).push(b));
        lemma_decode_new_block(Seq::empty(), blocks as nat, b, bit);
        lemma_canonical_push(empty, head);
        lemma_canonical_push(empty.push(head), literal);
    }
    assert(Seq::<int>::empty().push(v) =~= seq![v]);
    assert(decode(next) == seq![v]);
}

/// The last word after a literal is appended: the literal itself, or a
/// run of its fill that took it in.
pub proof fn lemma_literal_merge_tail(ws: Seq<u32>, word: u32)
    requires
        is_literal_word(word),
        !(ws =~= seq![LENGTH_MASK] && word == ALL_ZEROS_LITERAL),
    ensures
        literal_merge(ws, word).len() > 0,
        literal_merge(ws, word).last() == word || (uniform_fill(word) is Some && !is_literal_word(
            literal_merge(ws, word).last(),
        ) && fill_of(literal_merge(ws, word).last()) == uniform_fill(word).unwrap() && stored_length(
            literal_merge(ws, word).last(),
        ) >= 1),
{
    if ws.len() > 0 {
        match uniform_fill(word) {
            Some(fill) => {
                if absorb(ws.last(), fill, 1, true) is Some {
                    lemma_absorb_blocks(ws.last(), fill, 1, true);
                }
            },
            None => {},
        }
    }
}

/// A block in which a position above the highest member is set, behind
/// the same blocks, adds that position as the last member.
pub proof fn lemma_decode_raise(front: Seq<u32>, b: u32, raised: u32, p: int, o: int)
    requires
        top_bit(b, p),
        top_bit(raised, o),
        p < o < 31,
        forall|q: int| 0 <= q < o ==> bit_at(raised, q) == bit_at(b, q),
    ensures
        decode_blocks(front.push(raised)) == decode_blocks(front.push(b)).push(
            31 * front.len() + o,
        ),
{
    let base = 31 * (front.len() as int);
    lemma_decode_blocks_push(front, b);
    lemma_decode_blocks_push(front, raised);
    lemma_block_values_raise(b, raised, p, o, base);
    assert(decode_blocks(front) + block_values(b, 31, base).push(base + o) =~= (decode_blocks(
        front,
    ) + block_values(b, 31, base)).push(base + o));
}

/// Setting a position in the last word, above its top bit, leaves the
/// buffer compact, keeps its number of blocks, makes the position the top
/// of the last block and adds it as the last member.
pub proof fn lemma_raise_tail(ws: Seq<u32>, p: int, o: int)
    requires
        canonical(ws),
        ws.len() > 0,
        tail_holds(ws.last(), p),
        0 <= p < o < 31,
    ensures
        raise_tail(ws, o).len() > 0,
        canonical(raise_tail(ws, o)),
        tail_holds(raise_tail(ws, o).last(), o),
        expand(raise_tail(ws, o)).len() == expand(ws).len(),
        decode(raise_tail(ws, o)) == decode(ws).push(31 * (expand(ws).len() - 1) + o),
{
    let next = raise_tail(ws, o);
    let tail = ws.last();
    let word = tail | (1u32 << (o as u32));
    let front = ws.drop_last();
    let b = literal_bits(tail);
    let raised = literal_bits(word);
    lemma_named_words();
    lemma_set_bit(tail, p as u32, o as u32, 0);
    assert forall|q: int| 0 <= q < o implies bit_at(raised, q) == bit_at(b, q) by {
        lemma_set_bit(tail, p as u32, o as u32, q as u32);
    }
    lemma_expand_last(ws, word);
    assert(word_blocks(tail) =~= seq![b]);
    assert(word_blocks(word) =~= seq![raised]);
    assert(expand(ws) =~= expand(front).push(b));
    lemma_canonical_drop_last(ws);
    if word == ALL_ONES_LITERAL {
        lemma_literal_merge_blocks(front, word);
        lemma_literal_merge_canonical(front, word);
        lemma_literal_merge_tail(front, word);
    } else {
        lemma_canonical_update(ws, word);
        assert(expand(next) =~= expand(front).push(raised));
    }
    assert(expand(next) == expand(front).push(raised));
    lemma_decode_raise(expand(front), b, raised, p, o);
}

/// Setting the one position that the last word still lacks hands the full
/// block to the literal merge. The buffer then stands for the same blocks,
/// and holds the same integers, as with the full literal left in place.
/// Where the word before takes a full block in, the buffer gets one word
/// shorter and ends with a run of full blocks; where no word does, the
/// full literal stays as the last word.
pub proof fn lemma_saturation_promotion(ws: Seq<u32>, p: int, o: int)
    requires
        ws.len() > 0,
        tail_holds(ws.last(), p),
        0 <= p < o < 31,
        ws.last() | (1u32 << (o as u32)) == ALL_ONES_LITERAL,
    ensures
        o == 30,
        raise_tail(ws, o) == literal_merge(ws.drop_last(), ALL_ONES_LITERAL),
        expand(raise_tail(ws, o)) == expand(ws.update(ws.len() - 1, ALL_ONES_LITERAL)),
        decode(raise_tail(ws, o)) == decode(ws.update(ws.len() - 1, ALL_ONES_LITERAL)),
        ws.len() > 1 && mergeable(ws[ws.len() - 2], ALL_ONES_LITERAL) ==> {
            &&& raise_tail(ws, o).len() == ws.len() - 1
            &&& !is_literal_word(raise_tail(ws, o).last())
            &&& fill_of(raise_tail(ws, o).last()) == SEQUENCE_BIT
            &&& stored_length(raise_tail(ws, o).last()) >= 1
        },
        !(ws.len() > 1 && mergeable(ws[ws.len() - 2], ALL_ONES_LITERAL)) ==> raise_tail(ws, o)
            == ws.update(ws.len() - 1, ALL_ONES_LITERAL),
{
    let front = ws.drop_last();
    lemma_named_words();
    lemma_set_bit(ws.last(), p as u32, o as u32, 0);
    lemma_literal_merge_blocks(front, ALL_ONES_LITERAL);
    lemma_expand_last(ws, ALL_ONES_LITERAL);
    assert(word_blocks(ALL_ONES_LITERAL) =~= seq![literal_bits(ALL_ONES_LITERAL)]);
    assert(expand(front) + word_blocks(ALL_ONES_LITERAL) =~= expand(front).push(
        literal_bits(ALL_ONES_LITERAL),
    ));
    if ws.len() > 1 {
        assert(front.last() == ws[ws.len() - 2]);
        if mergeable(ws[ws.len() - 2], ALL_ONES_LITERAL) {
            lemma_absorb_blocks(front.last(), SEQUENCE_BIT, 1, true);
        } else {
            assert(front.push(ALL_ONES_LITERAL) =~= ws.update(ws.len() - 1, ALL_ONES_LITERAL));
        }
    } else {
        assert(seq![ALL_ONES_LITERAL] =~= ws.update(ws.len() - 1, ALL_ONES_LITERAL));
    }
}

/// Some empty blocks and then a literal with one position alone leave
/// the buffer compact, add as many blocks and one more, make the position
/// the top of the last block and add it as the last member.
pub proof fn lemma_open_block(ws: Seq<u32>, skip: int, bit: int)
    requires
        canonical(ws),
        ws.len() > 0,
        !(ws =~= seq![LENGTH_MASK]),
        0 <= skip < 0x0200_0000,
        0 <= bit < 31,
    ensures
        open_block(ws, skip, bit).len() > 0,
        canonical(open_block(ws, skip, bit)),
        tail_holds(open_block(ws, skip, bit).last(), bit),
        expand(open_block(ws, skip, bit)).len() == expand(ws).len() + skip + 1,
        decode(open_block(ws, skip, bit)) == decode(ws).push(31 * (expand(ws).len() + skip) + bit),
{
    let next = open_block(ws, skip, bit);
    let literal = single_literal(bit);
    let b = literal_bits(literal);
    let filled = if skip == 0 {
        ws
    } else {
        fill_merge(ws, skip as u32, 0)
    };
    lemma_named_words();
    lemma_single_literal_bits(bit);
    if skip == 0 {
        assert(expand(ws) + fill_blocks(0, 0) =~= expand(ws));
    } else {
        lemma_fill_merge_blocks(ws, skip as u32, 0);
        lemma_fill_merge_canonical(ws, skip as u32, 0);
    }
    assert(expand(filled) == expand(ws) + fill_blocks(0, skip as nat));
    assert(filled.len() > 0);
    assert(next == filled.push(literal));
    lemma_expand_push(filled, literal);
    assert(expand(next) =~= (expand(ws) + fill_blocks(0, skip as nat)).push(b));
    lemma_canonical_push(filled, literal);
    lemma_decode_new_block(expand(ws), skip as nat, b, bit);
}

/// An integer above the last of an ascending sequence leaves it ascending
/// when put behind it.
pub proof fn lemma_increasing_push(s: Seq<int>, v: int)
    requires
        strictly_increasing(s),
        s.len() > 0 ==> s.last() < v,
    ensures
        strictly_increasing(s.push(v)),
{
    let t = s.push(v);
    assert forall|i: int, j: int| 0 <= i < j < t.len() implies t[i] < t[j] by {
        if j < s.len() {
            assert(s[i] < s[j]);
        } else if i < s.len() - 1 {
            assert(s[i] < s[s.len() - 1]);
        }
    }
}

/// Appending an integer above the last one keeps the buffer in step and
/// adds the integer behind the members.
pub proof fn lemma_append_step(ws: Seq<u32>, last: int, v: int)
    requires
        tracks(ws, last),
        0 <= v <= MAX_ALLOWED_INTEGER,
        ws.len() > 0 ==> last < v,
    ensures
        tracks(append_step(ws, last, v), v),
        append_step(ws, last, v).len() > 0,
        decode(append_step(ws, last, v)) == decode(ws).push(v),
{
    if ws.len() == 0 {
        lemma_first_words(v);
        assert(expand(ws) =~= Seq::<u32>::empty());
        assert(decode(ws).push(v) =~= seq![v]);
    } else {
        let p = last % 31;
        let offset = p + (v - last);
        assert(v == 31 * (last / 31) + offset);
        if offset < 31 {
            lemma_raise_tail(ws, p, offset);
        } else {
            lemma_named_words();
            assert(!(ws =~= seq![LENGTH_MASK]));
            lemma_open_block(ws, offset / 31 - 1, offset % 31);
        }
    }
    lemma_increasing_push(decode(ws), v);
}

/// Appending a literal adds the members of its block behind those of the
/// buffer, the block counted from where the blocks of the buffer end.
pub proof fn lemma_literal_merge_decodes(ws: Seq<u32>, word: u32)
    requires
        is_literal_word(word),
    ensures
        decode(literal_merge(ws, word)) == decode(ws) + block_values(
            literal_bits(word),
            31,
            31 * (expand(ws).len() as int),
        ),
{
    lemma_named_words();
    lemma_literal_merge_blocks(ws, word);
    if ws =~= seq![LENGTH_MASK] && word == ALL_ZEROS_LITERAL {
        lemma_block_values_empty(31 * (expand(ws).len() as int));
        assert(decode(ws) + Seq::<int>::empty() =~= decode(ws));
    } else {
        lemma_decode_blocks_push(expand(ws), literal_bits(word));
    }
}

/// Appending a run adds the members of its blocks behind those of the
/// buffer; a run of empty blocks adds none.
pub proof fn lemma_fill_merge_decodes(ws: Seq<u32>, length: u32, fill_type: u32)
    requires
        1 <= length <= MAX_RUN_BLOCKS,
    ensures
        decode(fill_merge(ws, length, fill_type)) == decode_blocks(
            expand(ws) + fill_blocks(fill_of(fill_type), length as nat),
        ),
        fill_of(fill_type) == 0 ==> decode(fill_merge(ws, length, fill_type)) == decode(ws),
{
    lemma_fill_merge_blocks(ws, length, fill_type);
    if fill_of(fill_type) == 0 {
        lemma_named_words();
        assert(fill_blocks(fill_of(fill_type), length as nat) =~= fill_blocks(0, length as nat));
        lemma_decode_zero_blocks(expand(ws), length as nat);
    }
}

/// Appending the integers of a strictly increasing sequence, none
/// negative and none above the greatest that a bitmap can hold, gives a
/// compact buffer that decodes to exactly that sequence.
pub proof fn lemma_round_trip(s: Seq<int>)
    requires
        strictly_increasing(s),
        forall|i: int| 0 <= i < s.len() ==> 0 <= #[trigger] s[i] <= MAX_ALLOWED_INTEGER,
    ensures
        decode(appended(s)) == s,
        canonical(appended(s)),
        s.len() > 0 ==> tracks(appended(s), s.last()) && appended(s).len() > 0,
    decreases s.len(),
{
    if s.len() == 0 {
        assert(expand(appended(s)) =~= Seq::<u32>::empty());
        assert(decode(appended(s)) =~= s);
    } else {
        let front = s.drop_last();
        let last = if s.len() >= 2 {
            s[s.len() - 2]
        } else {
            -1
        };
        assert(strictly_increasing(front));
        lemma_round_trip(front);
        if s.len() >= 2 {
            assert(front.last() == last);
        }
        lemma_append_step(appended(front), last, s.last());
        assert(front.push(s.last()) =~= s);
    }
}

} // verus!
