//! What the merge rules do to the blocks of a buffer, and that they keep it
//! compact.
use vstd::prelude::*;
use vstd::std_specs::bits::u32_trailing_zeros;
use crate::word::{
    ALL_ZEROS_LITERAL, ALL_ONES_LITERAL, SEQUENCE_BIT, LENGTH_MASK, MAX_RUN_BLOCKS,
    is_literal_word, literal_bits, stored_length, fill_of, fill_pattern,
    word_blocks, block_count, first_block, lemma_single_bit_test, lemma_word_kinds, lemma_run_word,
    lemma_run_extend, lemma_exception_pattern, lemma_named_words,
};
use crate::model::{
    expand, fill_blocks, absorb, uniform_fill, literal_merge, fill_merge, mergeable, canonical,
};

verus! {

/// A word appended to a buffer adds its blocks behind those of the buffer.
pub proof fn lemma_expand_push(ws: Seq<u32>, w: u32)
    ensures
        expand(ws.push(w)) == expand(ws) + word_blocks(w),
{
    assert(ws.push(w).drop_last() =~= ws);
}

/// The blocks of a buffer are those before its last word and then those
/// of its last word, whatever that word is replaced by.
pub proof fn lemma_expand_last(ws: Seq<u32>, w: u32)
    requires
        ws.len() > 0,
    ensures
        expand(ws) == expand(ws.drop_last()) + word_blocks(ws.last()),
        expand(ws.update(ws.len() - 1, w)) == expand(ws.drop_last()) + word_blocks(w),
{
    assert(ws.update(ws.len() - 1, w).drop_last() =~= ws.drop_last());
}

/// Every word stands for at least one block.
pub proof fn lemma_expand_len(ws: Seq<u32>)
    ensures
        expand(ws).len() >= ws.len(),
    decreases ws.len(),
{
    if ws.len() > 0 {
        lemma_expand_len(ws.drop_last());
    }
}

/// The word that takes blocks in stands for its old blocks and then the
/// new ones; it is a run of their fill.
pub proof fn lemma_absorb_blocks(tail: u32, fill: u32, length: u32, single: bool)
    requires
        fill == 0 || fill == SEQUENCE_BIT,
        1 <= length <= MAX_RUN_BLOCKS,
        absorb(tail, fill, length, single) is Some,
    ensures
        word_blocks(absorb(tail, fill, length, single).unwrap()) == word_blocks(tail) + fill_blocks(
            fill,
            length as nat,
        ),
        !is_literal_word(absorb(tail, fill, length, single).unwrap()),
        fill_of(absorb(tail, fill, length, single).unwrap()) == fill,
        stored_length(absorb(tail, fill, length, single).unwrap()) >= length,
{
    let merged = absorb(tail, fill, length, single).unwrap();
    lemma_word_kinds(tail);
    lemma_named_words();
    let uniform = if fill == 0 {
        ALL_ZEROS_LITERAL
    } else {
        ALL_ONES_LITERAL
    };
    let odd = if fill == 0 {
        literal_bits(tail)
    } else {
        literal_bits(!tail)
    };
    if tail == uniform {
        lemma_run_word(fill, length, 0);
        assert(first_block(tail) == fill_pattern(fill));
        assert(first_block(merged) == fill_pattern(fill));
    } else if is_literal_word(tail) {
        lemma_single_bit_test(odd);
        let k = u32_trailing_zeros(odd);
        lemma_exception_pattern(tail, k);
        lemma_run_word(fill, length, (1 + k) as u32);
        assert(first_block(merged) == literal_bits(tail));
    } else {
        lemma_run_extend(tail, length);
        assert(first_block(merged) == first_block(tail));
    }
    assert(fill_pattern(merged) == fill_pattern(fill));
    assert(block_count(merged) == block_count(tail) + length);
    assert(word_blocks(merged) =~= word_blocks(tail) + fill_blocks(fill, length as nat));
}

/// A word that takes `length` blocks in would have taken fewer, and would
/// have taken them as a single literal.
pub proof fn lemma_absorb_monotone(
    tail: u32,
    fill: u32,
    length: u32,
    single: bool,
    fewer: u32,
    fewer_single: bool,
)
    requires
        absorb(tail, fill, length, single) is Some,
        fewer <= length,
        single ==> fewer_single,
    ensures
        absorb(tail, fill, fewer, fewer_single) is Some,
{
}

/// Where `tail` could stand behind `before`, the word that `tail` becomes
/// by taking blocks in can stand there too.
pub proof fn lemma_absorb_keeps_apart(
    before: u32,
    tail: u32,
    fill: u32,
    length: u32,
    single: bool,
)
    requires
        fill == 0 || fill == SEQUENCE_BIT,
        1 <= length <= MAX_RUN_BLOCKS,
        single ==> length == 1,
        absorb(tail, fill, length, single) is Some,
        !mergeable(before, tail),
    ensures
        !mergeable(before, absorb(tail, fill, length, single).unwrap()),
{
    let merged = absorb(tail, fill, length, single).unwrap();
    lemma_absorb_blocks(tail, fill, length, single);
    lemma_word_kinds(tail);
    lemma_named_words();
    let uniform = if fill == 0 {
        ALL_ZEROS_LITERAL
    } else {
        ALL_ONES_LITERAL
    };
    let odd = if fill == 0 {
        literal_bits(tail)
    } else {
        literal_bits(!tail)
    };
    if mergeable(before, merged) {
        let taken = (stored_length(merged) + 1) as u32;
        assert(absorb(before, fill, taken, false) is Some);
        if tail == uniform {
            lemma_run_word(fill, length, 0);
            lemma_absorb_monotone(before, fill, taken, false, 1, true);
        } else if is_literal_word(tail) {
            lemma_single_bit_test(odd);
            let k = u32_trailing_zeros(odd);
            lemma_exception_pattern(tail, k);
            lemma_run_word(fill, length, (1 + k) as u32);
        } else {
            lemma_run_extend(tail, length);
            lemma_absorb_monotone(
                before,
                fill,
                taken,
                false,
                (stored_length(tail) + 1) as u32,
                false,
            );
        }
    }
}

/// A buffer stays compact when a word that its last word does not take in
/// is put behind it.
pub proof fn lemma_canonical_push(ws: Seq<u32>, w: u32)
    requires
        canonical(ws),
        ws.len() > 0 ==> !mergeable(ws.last(), w),
    ensures
        canonical(ws.push(w)),
{
    let next = ws.push(w);
    assert forall|k: int| #![trigger next[k]] 0 <= k < next.len() - 1 implies !mergeable(
        next[k],
        next[k + 1],
    ) by {
        if k < ws.len() - 1 {
            assert(next[k] == ws[k]);
            assert(next[k + 1] == ws[k + 1]);
        }
    }
}

/// A buffer stays compact when its last word is replaced by one that the
/// word before it does not take in.
pub proof fn lemma_canonical_update(ws: Seq<u32>, w: u32)
    requires
        canonical(ws),
        ws.len() > 0,
        ws.len() > 1 ==> !mergeable(ws[ws.len() - 2], w),
    ensures
        canonical(ws.update(ws.len() - 1, w)),
{
    let next = ws.update(ws.len() - 1, w);
    assert forall|k: int| #![trigger next[k]] 0 <= k < next.len() - 1 implies !mergeable(
        next[k],
        next[k + 1],
    ) by {
        if k < ws.len() - 2 {
            assert(next[k] == ws[k]);
            assert(next[k + 1] == ws[k + 1]);
        }
    }
}

/// A compact buffer without its last word is compact.
pub proof fn lemma_canonical_drop_last(ws: Seq<u32>)
    requires
        canonical(ws),
        ws.len() > 0,
    ensures
        canonical(ws.drop_last()),
{
    let front = ws.drop_last();
    assert forall|k: int| #![trigger front[k]] 0 <= k < front.len() - 1 implies !mergeable(
        front[k],
        front[k + 1],
    ) by {
        assert(front[k] == ws[k]);
        assert(front[k + 1] == ws[k + 1]);
    }
}

/// Appending a literal adds its block behind the blocks of the buffer,
/// unless it is the empty block that is dropped behind the longest zero run.
pub proof fn lemma_literal_merge_blocks(ws: Seq<u32>, word: u32)
    requires
        is_literal_word(word),
    ensures
        literal_merge(ws, word).len() > 0,
        ws =~= seq![LENGTH_MASK] && word == ALL_ZEROS_LITERAL ==> literal_merge(ws, word) == ws,
        !(ws =~= seq![LENGTH_MASK] && word == ALL_ZEROS_LITERAL) ==> expand(
            literal_merge(ws, word),
        ) == expand(ws).push(literal_bits(word)),
{
    lemma_named_words();
    assert(word_blocks(word) =~= seq![literal_bits(word)]);
    if ws.len() == 0 {
        lemma_expand_push(ws, word);
        assert(seq![word] =~= ws.push(word));
        assert(expand(ws) + word_blocks(word) =~= expand(ws).push(literal_bits(word)));
    } else if ws.len() == 1 && ws[0] == LENGTH_MASK && word == ALL_ZEROS_LITERAL {
        assert(ws =~= seq![LENGTH_MASK]);
    } else {
        assert(!(ws =~= seq![LENGTH_MASK] && word == ALL_ZEROS_LITERAL));
        let merged = match uniform_fill(word) {
            Some(fill) => absorb(ws.last(), fill, 1, true),
            None => None,
        };
        match merged {
            Some(w) => {
                let fill = uniform_fill(word).unwrap();
                lemma_absorb_blocks(ws.last(), fill, 1, true);
                lemma_expand_last(ws, w);
                assert(fill_blocks(fill, 1) =~= seq![literal_bits(word)]);
                assert(expand(ws.drop_last()) + (word_blocks(ws.last()) + seq![literal_bits(word)])
                    =~= expand(ws).push(literal_bits(word)));
            },
            None => {
                lemma_expand_push(ws, word);
                assert(expand(ws) + word_blocks(word) =~= expand(ws).push(literal_bits(word)));
            },
        }
    }
}

/// Appending a literal to a compact buffer leaves it compact.
pub proof fn lemma_literal_merge_canonical(ws: Seq<u32>, word: u32)
    requires
        is_literal_word(word),
        canonical(ws),
    ensures
        canonical(literal_merge(ws, word)),
{
    lemma_named_words();
    if ws.len() == 0 {
        assert(seq![word] =~= ws.push(word));
        lemma_canonical_push(ws, word);
    } else if ws.len() == 1 && ws[0] == LENGTH_MASK && word == ALL_ZEROS_LITERAL {
    } else {
        match uniform_fill(word) {
            Some(fill) => match absorb(ws.last(), fill, 1, true) {
                Some(w) => {
                    if ws.len() > 1 {
                        let before = ws[ws.len() - 2];
                        assert(!mergeable(before, ws[ws.len() - 2 + 1]));
                        lemma_absorb_keeps_apart(before, ws.last(), fill, 1, true);
                    }
                    lemma_canonical_update(ws, w);
                },
                None => {
                    lemma_canonical_push(ws, word);
                },
            },
            None => {
                lemma_canonical_push(ws, word);
            },
        }
    }
}

/// Appending a run adds its blocks behind the blocks of the buffer, unless
/// it is the one empty block that is dropped behind the longest zero run.
pub proof fn lemma_fill_merge_blocks(ws: Seq<u32>, length: u32, fill_type: u32)
    requires
        1 <= length <= MAX_RUN_BLOCKS,
    ensures
        fill_merge(ws, length, fill_type).len() > 0,
        ws =~= seq![LENGTH_MASK] && length == 1 && fill_of(fill_type) == 0 ==> fill_merge(
            ws,
            length,
            fill_type,
        ) == ws,
        !(ws =~= seq![LENGTH_MASK] && length == 1 && fill_of(fill_type) == 0) ==> expand(
            fill_merge(ws, length, fill_type),
        ) == expand(ws) + fill_blocks(fill_of(fill_type), length as nat),
{
    let fill = fill_type & SEQUENCE_BIT;
    lemma_named_words();
    lemma_word_kinds(fill_type);
    if length == 1 {
        let word = if fill == 0 {
            ALL_ZEROS_LITERAL
        } else {
            ALL_ONES_LITERAL
        };
        lemma_literal_merge_blocks(ws, word);
        assert(fill_blocks(fill, 1) =~= seq![literal_bits(word)]);
        assert(expand(ws).push(literal_bits(word)) =~= expand(ws) + fill_blocks(fill, 1));
    } else {
        let header = fill | (length - 1) as u32;
        lemma_run_word(fill, (length - 1) as u32, 0);
        assert(fill_pattern(header) == fill_pattern(fill));
        assert(word_blocks(header) =~= fill_blocks(fill, length as nat));
        if ws.len() == 0 {
            lemma_expand_push(ws, header);
            assert(seq![header] =~= ws.push(header));
        } else {
            match absorb(ws.last(), fill, length, false) {
                Some(w) => {
                    lemma_absorb_blocks(ws.last(), fill, length, false);
                    lemma_expand_last(ws, w);
                    assert(expand(ws.drop_last()) + (word_blocks(ws.last()) + fill_blocks(
                        fill,
                        length as nat,
                    )) =~= expand(ws) + fill_blocks(fill, length as nat));
                },
                None => {
                    lemma_expand_push(ws, header);
                },
            }
        }
    }
}

/// Appending a run to a compact buffer leaves it compact.
pub proof fn lemma_fill_merge_canonical(ws: Seq<u32>, length: u32, fill_type: u32)
    requires
        1 <= length <= MAX_RUN_BLOCKS,
        canonical(ws),
    ensures
        canonical(fill_merge(ws, length, fill_type)),
{
    let fill = fill_type & SEQUENCE_BIT;
    lemma_named_words();
    lemma_word_kinds(fill_type);
    if length == 1 {
        let word = if fill == 0 {
            ALL_ZEROS_LITERAL
        } else {
            ALL_ONES_LITERAL
        };
        lemma_literal_merge_canonical(ws, word);
    } else {
        let header = fill | (length - 1) as u32;
        lemma_run_word(fill, (length - 1) as u32, 0);
        if ws.len() == 0 {
            assert(seq![header] =~= ws.push(header));
            lemma_canonical_push(ws, header);
        } else {
            match absorb(ws.last(), fill, length, false) {
                Some(w) => {
                    if ws.len() > 1 {
                        let before = ws[ws.len() - 2];
                        assert(!mergeable(before, ws[ws.len() - 2 + 1]));
                        lemma_absorb_keeps_apart(before, ws.last(), fill, length, false);
                    }
                    lemma_canonical_update(ws, w);
                },
                None => {
                    lemma_canonical_push(ws, header);
                },
            }
        }
    }
}

} // verus!
