//! The 32-bit word format: literals, zero runs, one runs and runs that carry
//! a single exception bit.
use vstd::prelude::*;

verus! {

/// Number of positions that one block, and so one literal word, covers.
pub const MAX_LITERAL_LENGTH: u32 = 31;

/// The literal word with no position set.
pub const ALL_ZEROS_LITERAL: u32 = 0x8000_0000;

/// The literal word with all 31 positions set.
pub const ALL_ONES_LITERAL: u32 = 0xFFFF_FFFF;

/// The fill flag of a run word: set for a run of full blocks.
pub const SEQUENCE_BIT: u32 = 0x4000_0000;

/// The low 25 bits of a run word, which hold its number of blocks minus one.
/// As a word of its own it is the zero run of the greatest length.
pub const LENGTH_MASK: u32 = 0x01FF_FFFF;

/// The greatest number of blocks that one run word can stand for.
pub const MAX_RUN_BLOCKS: u32 = 0x0200_0000;

/// The greatest integer a bitmap can hold: the last position of the block
/// that follows a run of the greatest length.
pub const MAX_ALLOWED_INTEGER: i32 = 1_040_187_422;

/// A literal has bit 31 set.
pub open spec fn is_literal_word(w: u32) -> bool {
    w & 0x8000_0000 != 0
}

/// A zero run has bits 31 and 30 clear.
pub open spec fn is_zero_run(w: u32) -> bool {
    w & 0xC000_0000 == 0
}

/// A one run has bit 31 clear and bit 30 set.
pub open spec fn is_one_run(w: u32) -> bool {
    w & 0xC000_0000 == 0x4000_0000
}

/// The 31 membership bits of a literal.
pub open spec fn literal_bits(w: u32) -> u32 {
    w & 0x7FFF_FFFF
}

/// No bit or exactly one bit of `x` is set.
pub open spec fn at_most_one_bit(x: u32) -> bool {
    x == 0 || exists|k: u32| k < 32 && x == 1u32 << k
}

/// The length field of a run word: its number of blocks minus one.
pub open spec fn stored_length(w: u32) -> u32 {
    w & 0x01FF_FFFF
}

/// The exception slot of a run word: 0 for none, else one more than the
/// position that differs from the fill in the run's first block.
pub open spec fn exception_slot(w: u32) -> u32 {
    (w >> 25) & 0x1F
}

/// The fill flag of a run word, as a word with at most bit 30 set.
pub open spec fn fill_of(w: u32) -> u32 {
    w & 0x4000_0000
}

/// Whether position `p` of the block pattern `b` is set.
pub open spec fn bit_at(b: u32, p: int) -> bool {
    0 <= p < 32 && (b >> (p as u32)) & 1 == 1
}

/// The block pattern with all 31 positions set.
pub const FULL_BLOCK: u32 = 0x7FFF_FFFF;

/// The pattern of a block that a run of the given fill repeats.
pub open spec fn fill_pattern(fill: u32) -> u32 {
    if fill_of(fill) == 0 {
        0
    } else {
        FULL_BLOCK
    }
}

/// The number of blocks that a word stands for.
pub open spec fn block_count(w: u32) -> nat {
    if is_literal_word(w) {
        1
    } else {
        (stored_length(w) + 1) as nat
    }
}

/// The pattern of the first block of a word: the literal's bits, or the
/// run's fill with the exception position flipped.
pub open spec fn first_block(w: u32) -> u32 {
    if is_literal_word(w) {
        literal_bits(w)
    } else if exception_slot(w) == 0 {
        fill_pattern(w)
    } else {
        fill_pattern(w) ^ (1u32 << ((exception_slot(w) - 1) as u32))
    }
}

/// The blocks of one word, in order, each as a 31-bit pattern.
pub open spec fn word_blocks(w: u32) -> Seq<u32> {
    Seq::new(
        block_count(w),
        |i: int|
            if i == 0 {
                first_block(w)
            } else {
                fill_pattern(w)
            },
    )
}

/// The literal that holds position `bit` alone.
pub open spec fn single_literal(bit: int) -> u32 {
    0x8000_0000u32 | (1u32 << (bit as u32))
}

/// The test `x & (x - 1) == 0` holds exactly of the words with at most one
/// bit set, and a word with one bit set is `1 << trailing_zeros`.
pub proof fn lemma_single_bit_test(x: u32)
    ensures
        (x & (x.wrapping_sub(1)) == 0) <==> at_most_one_bit(x),
        x != 0 && at_most_one_bit(x) ==> {
            &&& vstd::std_specs::bits::u32_trailing_zeros(x) < 32
            &&& x == 1u32 << vstd::std_specs::bits::u32_trailing_zeros(x)
        },
{
    vstd::std_specs::bits::axiom_u32_trailing_zeros(x);
    let t = vstd::std_specs::bits::u32_trailing_zeros(x);
    let y = x.wrapping_sub(1);
    let s = (32 - t) as u32;
    assert((x & y == 0) <==> (x == 0 || x == 1u32 << t)) by (bit_vector)
        requires
            x != 0 ==> t < 32 && s == 32 - t && (x >> t) & 1 == 1 && x << s == 0 && y == (x - 1) as u32,
    ;
    if x != 0 && at_most_one_bit(x) {
        let k = choose|k: u32| k < 32 && x == 1u32 << k;
        assert(k == t) by (bit_vector)
            requires
                k < 32,
                t < 32,
                ((1u32 << k) >> t) & 1 == 1,
        ;
    }
}

/// How the three kinds of word and their fields relate.
pub proof fn lemma_word_kinds(w: u32)
    by (bit_vector)
    ensures
        is_literal_word(w) <==> w >= 0x8000_0000u32,
        is_zero_run(w) <==> !is_literal_word(w) && fill_of(w) == 0,
        is_one_run(w) <==> !is_literal_word(w) && fill_of(w) == 0x4000_0000u32,
        fill_of(w) == 0 || fill_of(w) == 0x4000_0000u32,
        w & 0xC000_0000u32 == 0 <==> !is_literal_word(w) && fill_of(w) == 0,
        w & 0xC000_0000u32 == 0x4000_0000u32 <==> !is_literal_word(w) && fill_of(w)
            == 0x4000_0000u32,
        stored_length(w) <= 0x01FF_FFFFu32,
        exception_slot(w) < 32,
        literal_bits(w) <= 0x7FFF_FFFFu32,
        is_literal_word(w) ==> literal_bits(!w) == !w,
        is_literal_word(w) ==> w == 0x8000_0000u32 | literal_bits(w),
        literal_bits(w) == 0 <==> w == 0x8000_0000u32 || w == 0,
        literal_bits(!w) == 0 <==> w == 0xFFFF_FFFFu32 || w == 0x7FFF_FFFFu32,
        0u32 | w == w,
        fill_of(w) & 0x4000_0000u32 == fill_of(w),
{
}

/// The fields of a run word put together from a fill, a length field and
/// an exception slot.
pub proof fn lemma_run_word(fill: u32, stored: u32, slot: u32)
    by (bit_vector)
    requires
        fill == 0 || fill == 0x4000_0000u32,
        stored <= 0x01FF_FFFFu32,
        slot < 32,
    ensures
        !is_literal_word(fill | stored | (slot << 25)),
        fill_of(fill | stored | (slot << 25)) == fill,
        stored_length(fill | stored | (slot << 25)) == stored,
        exception_slot(fill | stored | (slot << 25)) == slot,
        slot == 0 ==> fill | stored | (slot << 25) == fill | stored,
        fill == 0 ==> fill | stored | (slot << 25) == stored | (slot << 25),
        fill | stored | (slot << 25) != 0x8000_0000u32,
        fill | stored | (slot << 25) != 0xFFFF_FFFFu32,
        fill == 0 ==> fill | stored == stored,
{
}

/// A run word whose length field has room keeps its fill and its exception
/// slot when the length grows.
pub proof fn lemma_run_extend(tail: u32, length: u32)
    by (bit_vector)
    requires
        !is_literal_word(tail),
        length <= 0x0200_0000u32,
        stored_length(tail) + length <= 0x01FF_FFFFu32,
    ensures
        tail + length < 0x8000_0000u32,
        !is_literal_word((tail + length) as u32),
        fill_of((tail + length) as u32) == fill_of(tail),
        stored_length((tail + length) as u32) == stored_length(tail) + length,
        exception_slot((tail + length) as u32) == exception_slot(tail),
{
}

/// The pattern of a literal with one odd position is the fill with that
/// position flipped.
pub proof fn lemma_exception_pattern(tail: u32, k: u32)
    by (bit_vector)
    requires
        is_literal_word(tail),
        k < 32,
    ensures
        literal_bits(tail) == 1u32 << k ==> k < 31 && 0u32 ^ (1u32 << k) == literal_bits(tail),
        literal_bits(!tail) == 1u32 << k ==> k < 31 && 0x7FFF_FFFFu32 ^ (1u32 << k)
            == literal_bits(tail),
{
}

/// What the named words are.
pub proof fn lemma_named_words()
    by (bit_vector)
    ensures
        is_literal_word(0x8000_0000u32),
        is_literal_word(0xFFFF_FFFFu32),
        literal_bits(0x8000_0000u32) == 0,
        literal_bits(0xFFFF_FFFFu32) == 0x7FFF_FFFFu32,
        literal_bits(0xFFFF_FFFFu32) >> 30 == 1,
        fill_of(0u32) == 0,
        fill_of(0x4000_0000u32) == 0x4000_0000u32,
        !is_literal_word(0x01FF_FFFFu32),
        fill_of(0x01FF_FFFFu32) == 0,
        stored_length(0x01FF_FFFFu32) == 0x01FF_FFFFu32,
        exception_slot(0x01FF_FFFFu32) == 0,
{
}

/// Position `p` is the highest one set in `b`.
pub open spec fn top_bit(b: u32, p: int) -> bool {
    0 <= p < 32 && b >> (p as u32) == 1
}

/// Below its top bit a pattern is free; at it the bit is set, above it
/// nothing is.
pub proof fn lemma_top_bit(b: u32, p: u32, q: u32)
    by (bit_vector)
    requires
        p < 32,
        q < 32,
        b >> p == 1,
    ensures
        (b >> p) & 1 == 1,
        q > p ==> (b >> q) & 1 == 0,
        b != 0,
{
}

/// Setting a position above the top bit of a literal gives a literal with
/// that position as its top bit and the positions below unchanged.
pub proof fn lemma_set_bit(w: u32, p: u32, o: u32, q: u32)
    by (bit_vector)
    requires
        is_literal_word(w),
        p < o,
        o < 31,
        q < 32,
        literal_bits(w) >> p == 1,
    ensures
        is_literal_word(w | (1u32 << o)),
        literal_bits(w | (1u32 << o)) >> o == 1,
        q < o ==> (literal_bits(w | (1u32 << o)) >> q) & 1 == (literal_bits(w) >> q) & 1,
        w | (1u32 << o) != 0x8000_0000u32,
        w | (1u32 << o) == 0xFFFF_FFFFu32 ==> o == 30,
{
}

/// The literal that holds one position alone.
pub proof fn lemma_single_literal(bit: u32, q: u32)
    by (bit_vector)
    requires
        bit < 31,
        q < 32,
    ensures
        is_literal_word(0x8000_0000u32 | (1u32 << bit)),
        literal_bits(0x8000_0000u32 | (1u32 << bit)) >> bit == 1,
        literal_bits(0x8000_0000u32 | (1u32 << bit)) == 1u32 << bit,
        q < bit ==> (literal_bits(0x8000_0000u32 | (1u32 << bit)) >> q) & 1 == 0,
        0x8000_0000u32 | (1u32 << bit) != 0x8000_0000u32,
        0x8000_0000u32 | (1u32 << bit) != 0xFFFF_FFFFu32,
{
}

/// No position of the empty pattern is set.
pub proof fn lemma_empty_pattern(q: u32)
    by (bit_vector)
    requires
        q < 32,
    ensures
        (0u32 >> q) & 1 == 0,
{
}

} // verus!
