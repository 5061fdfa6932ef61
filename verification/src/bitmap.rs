//! The bitmap builder: a growable word buffer with a cursor, and the three
//! operations that append to it.
use vstd::prelude::*;
use crate::word::{
    ALL_ZEROS_LITERAL, ALL_ONES_LITERAL, SEQUENCE_BIT, LENGTH_MASK, MAX_RUN_BLOCKS,
    MAX_LITERAL_LENGTH, MAX_ALLOWED_INTEGER, is_literal_word, is_zero_run, is_one_run,
    literal_bits, at_most_one_bit, fill_of, lemma_single_bit_test, lemma_word_kinds,
};
use crate::model::{
    literal_merge, fill_merge, absorb, decode, decode_blocks, block_values, fill_blocks, expand,
    tracks, append_step, raise_tail, open_block, first_words, canonical,
};
use crate::merge::{
    lemma_expand_len, lemma_literal_merge_canonical, lemma_fill_merge_canonical,
};
use crate::roundtrip::{
    lemma_append_step, lemma_decode_blocks_len, lemma_literal_merge_decodes,
    lemma_fill_merge_decodes,
};

verus! {

/// The number of members of a bitmap, or the mark that the number is no
/// longer kept.
#[derive(Clone, Copy, Debug, PartialEq, Eq, Structural)]
pub enum Cardinality {
    /// The number of integers appended so far.
    Count(u32),
    /// The number was given up; no append brings it back.
    Invalid,
}

/// Why an integer was not appended.
#[derive(Clone, Copy, Debug, PartialEq, Eq, Structural)]
pub enum AppendError {
    /// The integer is negative or above `MAX_ALLOWED_INTEGER`.
    OutOfRange,
    /// The integer is not above the one appended last.
    NotIncreasing,
}

/// The cardinality after one more member: a count goes up by one, and a
/// cardinality that is no longer kept stays so.
pub open spec fn bumped(c: Cardinality) -> Cardinality {
    match c {
        Cardinality::Count(n) => Cardinality::Count((n + 1) as u32),
        Cardinality::Invalid => Cardinality::Invalid,
    }
}

/// The capacity that a buffer of capacity `capacity` has once index `index`
/// must be within it.
pub open spec fn grown_capacity(capacity: int, index: int) -> int {
    if capacity > index {
        capacity
    } else if 2 * capacity > index + 1 {
        2 * capacity
    } else {
        index + 1
    }
}

/// The length of the buffer after an integer `v` is appended to a bitmap
/// with `cursor` words in use in a buffer of length `capacity`, whose last
/// member is `last`: a first integer gets a buffer of its own; one in the
/// block of `last` leaves the buffer as it is; another makes room for one
/// word, or for two if there are empty blocks between.
pub open spec fn append_capacity(capacity: int, cursor: int, last: int, v: int) -> int {
    let offset = last % 31 + (v - last);
    if cursor == 0 {
        if v / 31 == 0 {
            1
        } else {
            2
        }
    } else if offset < 31 {
        capacity
    } else if offset / 31 == 1 {
        grown_capacity(capacity, cursor)
    } else {
        grown_capacity(capacity, cursor + 1)
    }
}

/// The word that an append leaves at index `j` of the spare capacity: 0
/// where the buffer grew, the full literal where a filled word was taken
/// off the end and went into the word before it, and elsewhere the word
/// that was there.
pub open spec fn spare_word(storage: Seq<u32>, cursor: int, j: int) -> u32 {
    if j >= storage.len() {
        0
    } else if j == cursor - 1 {
        ALL_ONES_LITERAL
    } else {
        storage[j]
    }
}

/// A compressed bitmap under construction.
#[allow(non_camel_case_types)]
#[derive(Debug)]
pub struct CONCISE {
    words: Vec<u32>,
    last: i32,
    size: Cardinality,
    used: usize,
}

impl View for CONCISE {
    type V = Seq<u32>;

    /// The words in use, first word first.
    closed spec fn view(&self) -> Seq<u32> {
        self.words@.take(self.used as int)
    }
}

impl CONCISE {
    /// The whole buffer, words in use and spare capacity alike.
    pub closed spec fn storage(&self) -> Seq<u32> {
        self.words@
    }

    /// The number of words in use.
    pub closed spec fn cursor(&self) -> nat {
        self.used as nat
    }

    /// The integer appended last; without meaning while the bitmap is empty.
    pub closed spec fn last_value(&self) -> int {
        self.last as int
    }

    /// The cardinality as it is kept.
    pub closed spec fn count(&self) -> Cardinality {
        self.size
    }

    /// The index of the last word in use, -1 while there is none.
    pub open spec fn last_word_index(&self) -> int {
        self.cursor() - 1
    }

    /// The integers that the bitmap holds, ascending.
    pub open spec fn values(&self) -> Seq<int> {
        decode(self@)
    }

    /// The cursor lies within the buffer, whose length a `usize` can hold,
    /// and the view is the part of the buffer before the cursor.
    pub open spec fn wf(&self) -> bool {
        &&& self.cursor() <= self.storage().len() <= usize::MAX
        &&& self@.len() == self.cursor()
        &&& self@ == self.storage().take(self.cursor() as int)
    }

    /// The bitmap is in step with the integers appended to it: the buffer
    /// is compact and ends with the block of the last one, and a count that
    /// is kept is the number of members.
    pub open spec fn inv(&self) -> bool {
        &&& self.wf()
        &&& tracks(self@, self.last_value())
        &&& self.count() matches Cardinality::Count(n) ==> n == self.values().len()
    }

    /// An empty bitmap: no buffer, no member.
    pub fn new() -> (r: CONCISE)
        ensures
            r.inv(),
            r@ == Seq::<u32>::empty(),
            r.storage() == Seq::<u32>::empty(),
            r.last_word_index() == -1,
            r.last_value() == -1,
            r.count() == Cardinality::Count(0),
    {
        let r = CONCISE { words: Vec::new(), last: -1, size: Cardinality::Count(0), used: 0 };
        assert(r@ =~= Seq::<u32>::empty());
        assert(expand(r@) =~= Seq::<u32>::empty());
        r
    }

    /// The words in use: the encoded bitmap.
    pub fn words(&self) -> (r: &[u32])
        requires
            self.wf(),
        ensures
            r@ == self@,
    {
        vstd::slice::slice_subrange(self.words.as_slice(), 0, self.used)
    }

    /// The whole buffer, spare capacity included.
    pub fn buffer(&self) -> (r: &[u32])
        ensures
            r@ == self.storage(),
    {
        self.words.as_slice()
    }

    /// The length of the buffer.
    pub fn capacity(&self) -> (r: usize)
        ensures
            r == self.storage().len(),
    {
        self.words.len()
    }

    /// The integer appended last, -1 on a new bitmap.
    pub fn last(&self) -> (r: i32)
        ensures
            r == self.last_value(),
    {
        self.last
    }

    /// The number of members, or the mark that it is no longer kept.
    pub fn cardinality(&self) -> (r: Cardinality)
        ensures
            r == self.count(),
    {
        self.size
    }

    /// Gives the cardinality up: from now on no append counts.
    pub fn invalidate_cardinality(&mut self)
        ensures
            final(self).count() == Cardinality::Invalid,
            final(self)@ == old(self)@,
            final(self).storage() == old(self).storage(),
            final(self).cursor() == old(self).cursor(),
            final(self).last_value() == old(self).last_value(),
            old(self).wf() ==> final(self).wf(),
            old(self).inv() ==> final(self).inv(),
    {
        self.size = Cardinality::Invalid;
    }

    /// Appends `i`, which must lie above every member and within
    /// `0..=MAX_ALLOWED_INTEGER`; any other integer is refused and the
    /// bitmap stays as it is.
    pub fn append(&mut self, i: i32) -> (result: Result<(), AppendError>)
        requires
            old(self).inv(),
        ensures
            final(self).inv(),
            match result {
                Ok(_) => {
                    &&& 0 <= i <= MAX_ALLOWED_INTEGER
                    &&& old(self)@.len() > 0 ==> old(self).last_value() < i
                    &&& final(self)@ == append_step(old(self)@, old(self).last_value(), i as int)
                    &&& final(self)@.len() > 0
                    &&& canonical(final(self)@)
                    &&& final(self).values() == old(self).values().push(i as int)
                    &&& final(self).last_value() == i
                    &&& final(self).count() == bumped(old(self).count())
                    &&& final(self).storage().len() == append_capacity(
                        old(self).storage().len() as int,
                        old(self).cursor() as int,
                        old(self).last_value(),
                        i as int,
                    )
                    &&& forall|j: int|
                        final(self).cursor() <= j < final(self).storage().len()
                            ==> final(self).storage()[j] == spare_word(
                            old(self).storage(),
                            old(self).cursor() as int,
                            j,
                        )
                },
                Err(AppendError::OutOfRange) => {
                    &&& i < 0 || i > MAX_ALLOWED_INTEGER
                    &&& *final(self) == *old(self)
                },
                Err(AppendError::NotIncreasing) => {
                    &&& 0 <= i <= MAX_ALLOWED_INTEGER
                    &&& old(self)@.len() > 0
                    &&& i <= old(self).last_value()
                    &&& *final(self) == *old(self)
                },
            },
    {
        if i < 0 || i > MAX_ALLOWED_INTEGER {
            return Err(AppendError::OutOfRange);
        }
        let ghost ws = self@;
        let ghost before = self.last as int;
        proof {
            lemma_expand_len(ws);
            lemma_decode_blocks_len(expand(ws));
        }
        let v = i as u32;
        if self.used == 0 {
            proof {
                lemma_append_step(ws, before, i as int);
            }
            let zero_blocks = v / 31;
            if zero_blocks == 0 {
                self.words = vec![0u32; 1];
                self.used = 1;
            } else if zero_blocks == 1 {
                self.words = vec![0u32; 2];
                self.used = 2;
                self.words[0] = ALL_ZEROS_LITERAL;
            } else {
                self.words = vec![0u32; 2];
                self.used = 2;
                self.words[0] = zero_blocks - 1;
            }
            self.words[self.used - 1] = ALL_ZEROS_LITERAL | (1 << (v % 31));
            assert(self@ =~= first_words(i as int));
        } else {
            if i <= self.last {
                return Err(AppendError::NotIncreasing);
            }
            proof {
                lemma_append_step(ws, before, i as int);
            }
            let last = self.last as u32;
            let offset = last % 31 + (v - last);
            if offset >= MAX_LITERAL_LENGTH {
                let zero_blocks = offset / 31 - 1;
                let bit = offset % 31;
                if zero_blocks == 0 {
                    self.ensure_capacity(self.used);
                } else {
                    self.ensure_capacity(self.used + 1);
                    self.append_fill(zero_blocks, 0);
                }
                self.append_literal(ALL_ZEROS_LITERAL | (1 << bit));
                assert(self@ == open_block(ws, zero_blocks as int, bit as int));
            } else {
                let at = self.used - 1;
                let word = self.words[at] | (1 << offset);
                self.words[at] = word;
                if word == ALL_ONES_LITERAL {
                    self.used = self.used - 1;
                    assert(self@ =~= ws.drop_last());
                    self.append_literal(ALL_ONES_LITERAL);
                } else {
                    assert(self@ =~= ws.update(ws.len() - 1, word));
                }
                assert(self@ == raise_tail(ws, offset as int));
            }
        }
        self.last = i;
        self.size = match self.size {
            Cardinality::Count(n) => Cardinality::Count(n + 1),
            Cardinality::Invalid => Cardinality::Invalid,
        };
        Ok(())
    }

    /// Whether `word` is a run of empty blocks.
    pub fn is_zero_sequence(&self, word: u32) -> (r: bool)
        ensures
            r == is_zero_run(word),
    {
        (word & 0xC000_0000) == 0
    }

    /// Whether `word` is a run of full blocks.
    pub fn is_one_sequence(&self, word: u32) -> (r: bool)
        ensures
            r == is_one_run(word),
    {
        (word & 0xC000_0000) == SEQUENCE_BIT
    }

    /// Whether `word` is a literal.
    pub fn is_literal(&self, word: u32) -> (r: bool)
        ensures
            r == is_literal_word(word),
    {
        (word & 0x8000_0000) != 0
    }

    /// Whether at most one bit of `literal` is set. This holds of 0 too.
    pub fn contains_only_one_bit(&self, literal: u32) -> (r: bool)
        ensures
            r == at_most_one_bit(literal),
    {
        proof {
            lemma_single_bit_test(literal);
        }
        (literal & literal.wrapping_sub(1)) == 0
    }

    /// The 31 membership bits of `word`.
    pub fn get_literal_bits(&self, word: u32) -> (r: u32)
        ensures
            r == literal_bits(word),
    {
        word & 0x7FFF_FFFF
    }

    /// Makes the buffer longer than `index`. A buffer that is long enough
    /// stays as it is; another grows to twice its length, or to `index + 1`
    /// if that is more, and the new words are 0.
    pub fn ensure_capacity(&mut self, index: usize)
        requires
            old(self).wf(),
            index < usize::MAX,
            old(self).storage().len() <= index ==> 2 * old(self).storage().len() <= usize::MAX,
        ensures
            final(self).wf(),
            final(self).storage().len() > index,
            final(self).storage().len() == grown_capacity(
                old(self).storage().len() as int,
                index as int,
            ),
            final(self).storage() == old(self).storage() + Seq::new(
                (final(self).storage().len() - old(self).storage().len()) as nat,
                |k: int| 0u32,
            ),
            final(self)@ == old(self)@,
            final(self).cursor() == old(self).cursor(),
            final(self).last_value() == old(self).last_value(),
            final(self).count() == old(self).count(),
    {
        let capacity = self.words.len();
        if capacity > index {
            assert(self.storage() =~= old(self).storage() + Seq::new(0nat, |k: int| 0u32));
            return ;
        }
        let doubled = capacity * 2;
        let target = if doubled > index + 1 {
            doubled
        } else {
            index + 1
        };
        let mut new_words = vec![0u32; target];
        let mut k: usize = 0;
        while k < capacity
            invariant
                capacity == self.words.len(),
                capacity <= target,
                new_words.len() == target,
                k <= capacity,
                forall|j: int| 0 <= j < k ==> new_words@[j] == self.words@[j],
                forall|j: int| k <= j < target ==> new_words@[j] == 0u32,
            decreases capacity - k,
        {
            new_words[k] = self.words[k];
            k += 1;
        }
        self.words = new_words;
        assert(self.storage() =~= old(self).storage() + Seq::new(
            (target - capacity) as nat,
            |k: int| 0u32,
        ));
        assert(self@ =~= old(self)@);
    }

    /// Appends a run of `length` blocks, all empty or all full as the fill
    /// flag of `fill_type` says, and folds it into the last word where the
    /// rules allow.
    pub fn append_fill(&mut self, length: u32, fill_type: u32)
        requires
            old(self).wf(),
            0 < length <= MAX_RUN_BLOCKS,
            old(self).cursor() < old(self).storage().len(),
        ensures
            final(self).wf(),
            final(self)@ == fill_merge(old(self)@, length, fill_type),
            final(self).values() == decode_blocks(
                expand(old(self)@) + fill_blocks(fill_of(fill_type), length as nat),
            ),
            canonical(old(self)@) ==> canonical(final(self)@),
            final(self).storage().len() == old(self).storage().len(),
            forall|j: int|
                0 <= j < old(self).storage().len() && j != final(self).last_word_index()
                    ==> final(self).storage()[j] == old(self).storage()[j],
            final(self).last_value() == old(self).last_value(),
            final(self).count() == old(self).count(),
    {
        let fill = fill_type & SEQUENCE_BIT;
        proof {
            lemma_word_kinds(fill_type);
            lemma_fill_merge_decodes(old(self)@, length, fill_type);
            if canonical(old(self)@) {
                lemma_fill_merge_canonical(old(self)@, length, fill_type);
            }
        }
        if length == 1 {
            self.append_literal(
                if fill == 0 {
                    ALL_ZEROS_LITERAL
                } else {
                    ALL_ONES_LITERAL
                },
            );
            return ;
        }
        if self.used == 0 {
            self.used = 1;
            self.words[0] = fill | (length - 1);
            assert(self@ =~= fill_merge(old(self)@, length, fill_type));
            return ;
        }
        let at = self.used - 1;
        let last_word = self.words[at];
        proof {
            lemma_word_kinds(last_word);
            lemma_word_kinds(length);
            lemma_single_bit_test(literal_bits(last_word));
            lemma_single_bit_test(!last_word);
            assert(old(self)@.last() == last_word);
        }
        let ghost merged = absorb(last_word, fill, length, false);
        if self.is_literal(last_word) {
            if length >= MAX_RUN_BLOCKS {
                self.words[self.used] = fill | (length - 1);
                self.used = self.used + 1;
            } else if fill == 0 && last_word == ALL_ZEROS_LITERAL {
                self.words[at] = length;
            } else if fill == SEQUENCE_BIT && last_word == ALL_ONES_LITERAL {
                self.words[at] = SEQUENCE_BIT | length;
            } else if fill == 0 && self.contains_only_one_bit(
                self.get_literal_bits(last_word),
            ) {
                self.words[at] = length | ((1 + self.get_literal_bits(last_word).trailing_zeros())
                    << 25);
            } else if fill == SEQUENCE_BIT && self.contains_only_one_bit(!last_word) {
                self.words[at] = SEQUENCE_BIT | length | ((1 + (!last_word).trailing_zeros())
                    << 25);
            } else {
                self.words[self.used] = fill | (length - 1);
                self.used = self.used + 1;
            }
        } else {
            if last_word & 0xC000_0000 == fill && (last_word >> 25) & 0x1F == 0 && (last_word
                & LENGTH_MASK) + length <= LENGTH_MASK {
                self.words[at] = last_word + length;
            } else {
                self.words[self.used] = fill | (length - 1);
                self.used = self.used + 1;
            }
        }
        assert(self@ =~= fill_merge(old(self)@, length, fill_type));
    }

    /// Appends one literal word, and folds a uniform one into the last word
    /// where the rules allow. An empty block behind the zero run of the
    /// greatest length, standing alone, is dropped.
    pub fn append_literal(&mut self, word: u32)
        requires
            old(self).wf(),
            old(self).cursor() < old(self).storage().len(),
        ensures
            final(self).wf(),
            final(self)@ == literal_merge(old(self)@, word),
            is_literal_word(word) ==> final(self).values() == old(self).values() + block_values(
                literal_bits(word),
                31,
                31 * (expand(old(self)@).len() as int),
            ),
            is_literal_word(word) && canonical(old(self)@) ==> canonical(final(self)@),
            final(self).storage().len() == old(self).storage().len(),
            forall|j: int|
                0 <= j < old(self).storage().len() && j != final(self).last_word_index()
                    ==> final(self).storage()[j] == old(self).storage()[j],
            final(self).last_value() == old(self).last_value(),
            final(self).count() == old(self).count(),
            old(self)@ == seq![LENGTH_MASK] && word == ALL_ZEROS_LITERAL ==> *final(self)
                == *old(self),
    {
        proof {
            if is_literal_word(word) {
                lemma_literal_merge_decodes(old(self)@, word);
                if canonical(old(self)@) {
                    lemma_literal_merge_canonical(old(self)@, word);
                }
            }
        }
        if self.used == 1 && word == ALL_ZEROS_LITERAL && self.words[0] == LENGTH_MASK {
            assert(old(self)@ =~= seq![LENGTH_MASK]);
            return ;
        }
        if self.used == 0 {
            self.used = 1;
            self.words[0] = word;
            assert(self@ =~= literal_merge(old(self)@, word));
            return ;
        }
        let at = self.used - 1;
        let last_word = self.words[at];
        proof {
            lemma_word_kinds(last_word);
            lemma_word_kinds(1u32);
            lemma_single_bit_test(literal_bits(last_word));
            lemma_single_bit_test(!last_word);
            assert(old(self)@.last() == last_word);
        }
        if word == ALL_ZEROS_LITERAL {
            if last_word == ALL_ZEROS_LITERAL {
                self.words[at] = 1;
            } else if self.is_zero_sequence(last_word) && (last_word & LENGTH_MASK) < LENGTH_MASK {
                self.words[at] = last_word + 1;
            } else if self.is_literal(last_word) && self.contains_only_one_bit(
                self.get_literal_bits(last_word),
            ) {
                self.words[at] = 1 | ((1 + self.get_literal_bits(last_word).trailing_zeros())
                    << 25);
            } else {
                self.words[self.used] = word;
                self.used = self.used + 1;
            }
        } else if word == ALL_ONES_LITERAL {
            if last_word == ALL_ONES_LITERAL {
                self.words[at] = SEQUENCE_BIT | 1;
            } else if self.is_one_sequence(last_word) && (last_word & LENGTH_MASK) < LENGTH_MASK {
                self.words[at] = last_word + 1;
            } else if self.is_literal(last_word) && self.contains_only_one_bit(!last_word) {
                self.words[at] = SEQUENCE_BIT | 1 | ((1 + (!last_word).trailing_zeros()) << 25);
            } else {
                self.words[self.used] = word;
                self.used = self.used + 1;
            }
        } else {
            self.words[self.used] = word;
            self.used = self.used + 1;
        }
        assert(self@ =~= literal_merge(old(self)@, word));
    }
}

} // verus!
