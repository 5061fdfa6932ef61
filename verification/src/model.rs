//! The meaning of a word buffer and the merge rules that keep it compact.
use vstd::prelude::*;
use vstd::std_specs::bits::u32_trailing_zeros;
use crate::word::{
    ALL_ZEROS_LITERAL, ALL_ONES_LITERAL, SEQUENCE_BIT, LENGTH_MASK, MAX_RUN_BLOCKS,
    MAX_ALLOWED_INTEGER, top_bit,
    is_literal_word, literal_bits, at_most_one_bit, stored_length, exception_slot, fill_of,
    bit_at, word_blocks, single_literal, fill_pattern,
};

verus! {

/// The blocks that a buffer stands for, first block first.
pub open spec fn expand(ws: Seq<u32>) -> Seq<u32>
    decreases ws.len(),
{
    if ws.len() == 0 {
        Seq::empty()
    } else {
        expand(ws.drop_last()) + word_blocks(ws.last())
    }
}

/// `n` blocks of the pattern that the fill `fill` repeats.
pub open spec fn fill_blocks(fill: u32, n: nat) -> Seq<u32> {
    Seq::new(n, |i: int| fill_pattern(fill))
}

/// The members of one block among its first `n` positions, ascending, where
/// position 0 stands for the integer `base`.
pub open spec fn block_values(b: u32, n: int, base: int) -> Seq<int>
    decreases n,
{
    if n <= 0 {
        Seq::empty()
    } else if bit_at(b, n - 1) {
        block_values(b, n - 1, base).push(base + n - 1)
    } else {
        block_values(b, n - 1, base)
    }
}

/// The members of a sequence of blocks, ascending: block `k` covers the
/// integers from `31 * k` to `31 * k + 30`.
pub open spec fn decode_blocks(bs: Seq<u32>) -> Seq<int>
    decreases bs.len(),
{
    if bs.len() == 0 {
        Seq::empty()
    } else {
        decode_blocks(bs.drop_last()) + block_values(bs.last(), 31, 31 * (bs.len() - 1))
    }
}

/// The integers that a buffer holds, ascending.
pub open spec fn decode(ws: Seq<u32>) -> Seq<int> {
    decode_blocks(expand(ws))
}

/// The word that takes the place of `tail` when `length` more blocks of the
/// fill `fill` (0 or `SEQUENCE_BIT`) are folded into it, if they can be.
/// `single` says that the blocks come as one uniform literal, which a run
/// takes in whether or not it carries an exception.
pub open spec fn absorb(tail: u32, fill: u32, length: u32, single: bool) -> Option<u32> {
    let uniform = if fill == 0 {
        ALL_ZEROS_LITERAL
    } else {
        ALL_ONES_LITERAL
    };
    let odd = if fill == 0 {
        literal_bits(tail)
    } else {
        literal_bits(!tail)
    };
    if tail == uniform {
        if length < MAX_RUN_BLOCKS {
            Some(fill | length)
        } else {
            None
        }
    } else if is_literal_word(tail) {
        if at_most_one_bit(odd) && length < MAX_RUN_BLOCKS {
            Some(fill | length | ((1 + u32_trailing_zeros(odd)) as u32) << 25)
        } else {
            None
        }
    } else if fill_of(tail) == fill && (single || exception_slot(tail) == 0) && stored_length(tail)
        + length <= LENGTH_MASK {
        Some((tail + length) as u32)
    } else {
        None
    }
}

/// The fill that a uniform literal repeats.
pub open spec fn uniform_fill(word: u32) -> Option<u32> {
    if word == ALL_ZEROS_LITERAL {
        Some(0u32)
    } else if word == ALL_ONES_LITERAL {
        Some(SEQUENCE_BIT)
    } else {
        None
    }
}

/// The buffer after one literal word is appended to `ws`.
pub open spec fn literal_merge(ws: Seq<u32>, word: u32) -> Seq<u32> {
    if ws.len() == 0 {
        seq![word]
    } else if ws.len() == 1 && ws[0] == LENGTH_MASK && word == ALL_ZEROS_LITERAL {
        ws
    } else {
        match uniform_fill(word) {
            Some(fill) => match absorb(ws.last(), fill, 1, true) {
                Some(merged) => ws.update(ws.len() - 1, merged),
                None => ws.push(word),
            },
            None => ws.push(word),
        }
    }
}

/// The buffer after a run of `length` blocks is appended to `ws`. Only the
/// fill flag of `fill_type` counts.
pub open spec fn fill_merge(ws: Seq<u32>, length: u32, fill_type: u32) -> Seq<u32> {
    let fill = fill_type & SEQUENCE_BIT;
    if length == 1 {
        literal_merge(
            ws,
            if fill == 0 {
                ALL_ZEROS_LITERAL
            } else {
                ALL_ONES_LITERAL
            },
        )
    } else if ws.len() == 0 {
        seq![fill | (length - 1) as u32]
    } else {
        match absorb(ws.last(), fill, length, false) {
            Some(merged) => ws.update(ws.len() - 1, merged),
            None => ws.push(fill | (length - 1) as u32),
        }
    }
}

/// The first buffer of a bitmap, whose one member is `v`: the empty blocks
/// before the block of `v`, if there are any, and the literal of `v`.
pub open spec fn first_words(v: int) -> Seq<u32> {
    let blocks = v / 31;
    if blocks == 0 {
        seq![single_literal(v % 31)]
    } else if blocks == 1 {
        seq![ALL_ZEROS_LITERAL, single_literal(v % 31)]
    } else {
        seq![(blocks - 1) as u32, single_literal(v % 31)]
    }
}

/// The buffer after position `offset` is set in the last word of `ws`. A
/// word that this fills is taken off and appended again as the full
/// literal, so that the word before it may take it in.
pub open spec fn raise_tail(ws: Seq<u32>, offset: int) -> Seq<u32> {
    let word = ws.last() | (1u32 << (offset as u32));
    if word == ALL_ONES_LITERAL {
        literal_merge(ws.drop_last(), ALL_ONES_LITERAL)
    } else {
        ws.update(ws.len() - 1, word)
    }
}

/// The buffer after `skip` empty blocks and then a literal with position
/// `bit` alone are appended to `ws`.
pub open spec fn open_block(ws: Seq<u32>, skip: int, bit: int) -> Seq<u32> {
    let filled = if skip == 0 {
        ws
    } else {
        fill_merge(ws, skip as u32, 0)
    };
    literal_merge(filled, single_literal(bit))
}

/// The buffer after the integer `v` is appended to a bitmap whose buffer is
/// `ws` and whose greatest member, if it has one, is `last`.
pub open spec fn append_step(ws: Seq<u32>, last: int, v: int) -> Seq<u32> {
    if ws.len() == 0 {
        first_words(v)
    } else {
        let offset = last % 31 + (v - last);
        if offset < 31 {
            raise_tail(ws, offset)
        } else {
            open_block(ws, offset / 31 - 1, offset % 31)
        }
    }
}

/// Whether the rules would fold `b` into `a` rather than let it stand
/// behind `a`.
pub open spec fn mergeable(a: u32, b: u32) -> bool {
    if b == ALL_ZEROS_LITERAL {
        absorb(a, 0, 1, true) is Some
    } else if b == ALL_ONES_LITERAL {
        absorb(a, SEQUENCE_BIT, 1, true) is Some
    } else if !is_literal_word(b) && exception_slot(b) == 0 {
        absorb(a, fill_of(b), (stored_length(b) + 1) as u32, false) is Some
    } else {
        false
    }
}

/// No word of the buffer could have been folded into the word before it.
pub open spec fn canonical(ws: Seq<u32>) -> bool {
    forall|k: int| #![trigger ws[k]] 0 <= k < ws.len() - 1 ==> !mergeable(ws[k], ws[k + 1])
}

/// The last word of a buffer holds position `p` of its last block as the
/// highest member: as a literal whose top bit is `p`, or, for the last
/// position of a block, as a run of full blocks that a full block went into.
pub open spec fn tail_holds(tail: u32, p: int) -> bool {
    ||| is_literal_word(tail) && top_bit(literal_bits(tail), p)
    ||| !is_literal_word(tail) && fill_of(tail) == SEQUENCE_BIT && stored_length(tail) >= 1 && p
        == 30
}

/// What holds of a buffer `ws` between appends of integers, the last of
/// which was `last`: it is compact, its members ascend and, unless it is
/// empty, it ends with the block of `last`, which is its greatest member.
pub open spec fn tracks(ws: Seq<u32>, last: int) -> bool {
    &&& canonical(ws)
    &&& strictly_increasing(decode(ws))
    &&& ws.len() > 0 ==> {
        &&& 0 <= last <= MAX_ALLOWED_INTEGER
        &&& expand(ws).len() == last / 31 + 1
        &&& tail_holds(ws.last(), last % 31)
        &&& decode(ws).len() > 0
        &&& decode(ws).last() == last
    }
}

/// The buffer after the integers of `s` are appended in order to an empty
/// bitmap.
pub open spec fn appended(s: Seq<int>) -> Seq<u32>
    decreases s.len(),
{
    if s.len() == 0 {
        Seq::empty()
    } else {
        append_step(
            appended(s.drop_last()),
            if s.len() >= 2 {
                s[s.len() - 2]
            } else {
                -1
            },
            s.last(),
        )
    }
}

/// Each integer of `s` is less than the next.
pub open spec fn strictly_increasing(s: Seq<int>) -> bool {
    forall|i: int, j: int| 0 <= i < j < s.len() ==> s[i] < s[j]
}

} // verus!
