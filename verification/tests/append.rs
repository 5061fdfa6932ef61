use concise::word::{ALL_ONES_LITERAL, ALL_ZEROS_LITERAL, MAX_ALLOWED_INTEGER};
use concise::{AppendError, Cardinality, CONCISE};

/// Reads a word buffer back: a running block cursor, literals one block
/// each, runs as many blocks as their length says, the exception in the
/// first block of a run.
fn decode(words: &[u32]) -> Vec<i64> {
    let mut out = Vec::new();
    let mut block: i64 = 0;
    for &w in words {
        if w & 0x8000_0000 != 0 {
            for p in 0..31 {
                if (w >> p) & 1 == 1 {
                    out.push(block * 31 + p);
                }
            }
            block += 1;
        } else {
            let length = (w & 0x01FF_FFFF) as i64 + 1;
            let slot = ((w >> 25) & 0x1F) as i64;
            if w & 0x4000_0000 != 0 {
                for k in 0..length {
                    for p in 0..31 {
                        if !(k == 0 && slot != 0 && p == slot - 1) {
                            out.push((block + k) * 31 + p);
                        }
                    }
                }
            } else if slot != 0 {
                out.push(block * 31 + slot - 1);
            }
            block += length;
        }
    }
    out
}

fn is_run(w: u32) -> bool {
    w & 0x8000_0000 == 0
}

fn plain_run(w: u32) -> bool {
    is_run(w) && (w >> 25) & 0x1F == 0
}

/// No plain run behind a run of its fill that has room, no uniform literal
/// behind a run of its fill or behind its like.
fn compact(words: &[u32]) -> bool {
    for pair in words.windows(2) {
        let (a, b) = (pair[0], pair[1]);
        let room = (a & 0x01FF_FFFF) + (b & 0x01FF_FFFF) + 1 <= 0x01FF_FFFF;
        if plain_run(a) && plain_run(b) && (a & 0x4000_0000) == (b & 0x4000_0000) && room {
            return false;
        }
        if b == ALL_ZEROS_LITERAL && (a == ALL_ZEROS_LITERAL || (is_run(a) && a & 0x4000_0000 == 0)) {
            return false;
        }
        if b == ALL_ONES_LITERAL && (a == ALL_ONES_LITERAL || (is_run(a) && a & 0x4000_0000 != 0)) {
            return false;
        }
    }
    true
}

fn build(values: &[i32]) -> CONCISE {
    let mut c = CONCISE::new();
    for &v in values {
        assert_eq!(c.append(v), Ok(()));
    }
    c
}

fn round_trip(values: &[i32]) {
    let c = build(values);
    let expected: Vec<i64> = values.iter().map(|&v| v as i64).collect();
    assert_eq!(decode(c.words()), expected);
    assert!(compact(c.words()));
    assert_eq!(c.cardinality(), Cardinality::Count(values.len() as u32));
    if let Some(&last) = values.last() {
        assert_eq!(c.last(), last);
    }
}

#[test]
fn it_works() {
    assert_eq!(2 + 2, 4);
}

#[test]
fn new_bitmap_is_empty() {
    let c = CONCISE::new();
    assert_eq!(c.words(), &[] as &[u32]);
    assert_eq!(c.buffer(), &[] as &[u32]);
    assert_eq!(c.capacity(), 0);
    assert_eq!(c.last(), -1);
    assert_eq!(c.cardinality(), Cardinality::Count(0));
    assert_eq!(decode(c.words()), Vec::<i64>::new());
}

#[test]
fn zero_one_thirty_two() {
    let c = build(&[0, 1, 32]);
    assert_eq!(c.words(), &[0x8000_0003, 0x8000_0002]);
    assert_eq!(decode(c.words()), vec![0, 1, 32]);
    assert_eq!(c.cardinality(), Cardinality::Count(3));
    assert_eq!(c.last(), 32);
}

#[test]
fn first_block_filled() {
    let values: Vec<i32> = (0..=30).collect();
    let c = build(&values);
    assert_eq!(c.words().len(), 1);
    assert_eq!(c.words(), &[ALL_ONES_LITERAL]);
    assert_eq!(decode(c.words()), (0..=30).collect::<Vec<i64>>());
    assert_eq!(c.cardinality(), Cardinality::Count(31));
}

#[test]
fn two_filled_blocks_become_one_run() {
    let values: Vec<i32> = (0..=61).collect();
    let c = build(&values);
    assert_eq!(c.words(), &[0x4000_0001]);
    assert_eq!(decode(c.words()), (0..=61).collect::<Vec<i64>>());
}

#[test]
fn three_filled_blocks_extend_the_run() {
    let values: Vec<i32> = (0..=92).collect();
    let c = build(&values);
    assert_eq!(c.words(), &[0x4000_0002]);
    assert_eq!(c.cardinality(), Cardinality::Count(93));
}

#[test]
fn filled_block_behind_a_sparse_literal_stays_a_literal() {
    let mut values = vec![5];
    values.extend(31..=61);
    let mut c = build(&values);
    assert_eq!(c.words(), &[0x8000_0020, ALL_ONES_LITERAL]);
    for v in 62..=92 {
        assert_eq!(c.append(v), Ok(()));
    }
    assert_eq!(c.words(), &[0x8000_0020, 0x4000_0001]);
    values.extend(62..=92);
    assert_eq!(decode(c.words()), values.iter().map(|&v| v as i64).collect::<Vec<i64>>());
}

#[test]
fn filled_block_behind_a_literal_with_one_gap_makes_a_run_with_exception() {
    let mut values: Vec<i32> = (0..=30).filter(|&v| v != 7).collect();
    let c0 = build(&values);
    assert_eq!(c0.words(), &[0xFFFF_FF7F]);
    values.extend(31..=61);
    let mut c = build(&values);
    assert_eq!(c.words(), &[0x5000_0001]);
    assert_eq!(decode(c.words()), values.iter().map(|&v| v as i64).collect::<Vec<i64>>());
    for v in 62..=92 {
        assert_eq!(c.append(v), Ok(()));
    }
    assert_eq!(c.words(), &[0x5000_0002]);
    values.extend(62..=92);
    assert_eq!(decode(c.words()), values.iter().map(|&v| v as i64).collect::<Vec<i64>>());
}

#[test]
fn first_append_in_block_zero() {
    let c = build(&[17]);
    assert_eq!(c.words(), &[0x8002_0000]);
    assert_eq!(c.capacity(), 1);
}

#[test]
fn first_append_in_block_one() {
    let c = build(&[31]);
    assert_eq!(c.words(), &[ALL_ZEROS_LITERAL, 0x8000_0001]);
    assert_eq!(c.capacity(), 2);
    assert_eq!(decode(c.words()), vec![31]);
}

#[test]
fn first_append_in_a_later_block() {
    let c = build(&[100]);
    assert_eq!(c.words(), &[0x0000_0002, 0x8000_0080]);
    assert_eq!(c.capacity(), 2);
    assert_eq!(decode(c.words()), vec![100]);
}

#[test]
fn greatest_integer() {
    let c = build(&[MAX_ALLOWED_INTEGER]);
    assert_eq!(MAX_ALLOWED_INTEGER, 31 * (1 << 25) + 30);
    assert_eq!(c.words(), &[0x01FF_FFFF, 0xC000_0000]);
    assert_eq!(decode(c.words()), vec![MAX_ALLOWED_INTEGER as i64]);
}

#[test]
fn greatest_integer_behind_others() {
    let c = build(&[0, 1, MAX_ALLOWED_INTEGER - 1, MAX_ALLOWED_INTEGER]);
    assert_eq!(c.words(), &[0x8000_0003, 0x01FF_FFFE, 0xE000_0000]);
    assert_eq!(
        decode(c.words()),
        vec![0, 1, MAX_ALLOWED_INTEGER as i64 - 1, MAX_ALLOWED_INTEGER as i64]
    );
}

#[test]
fn one_empty_block_between() {
    let c = build(&[0, 67]);
    assert_eq!(c.words(), &[0x0200_0001, 0x8000_0020]);
    assert_eq!(c.buffer(), &[0x0200_0001, 0x8000_0020, 0]);
    assert_eq!(decode(c.words()), vec![0, 67]);
}

#[test]
fn several_empty_blocks_behind_a_single_bit() {
    let c = build(&[0, 200]);
    assert_eq!(c.words(), &[0x0200_0005, 0x8000_4000]);
    assert_eq!(decode(c.words()), vec![0, 200]);
}

#[test]
fn several_empty_blocks_behind_a_mixed_literal() {
    let c = build(&[3, 4, 100]);
    assert_eq!(c.words(), &[0x8000_0018, 0x0000_0001, 0x8000_0080]);
    assert_eq!(c.capacity(), 3);
    assert_eq!(decode(c.words()), vec![3, 4, 100]);
}

#[test]
fn next_block_without_a_gap() {
    let c = build(&[30, 31]);
    assert_eq!(c.words(), &[0xC000_0000, 0x8000_0001]);
    assert_eq!(c.capacity(), 2);
}

#[test]
fn empty_blocks_behind_a_run_of_full_blocks() {
    let mut values: Vec<i32> = (0..=61).collect();
    values.push(1000);
    let c = build(&values);
    assert_eq!(c.words(), &[0x4000_0001, 0x0000_001D, 0x8000_0100]);
    assert_eq!(decode(c.words()), values.iter().map(|&v| v as i64).collect::<Vec<i64>>());
}

#[test]
fn round_trip_sparse() {
    round_trip(&[0]);
    round_trip(&[30]);
    round_trip(&[31]);
    round_trip(&[62]);
    round_trip(&[1, 2, 3, 5, 8, 13, 21, 34, 55, 89, 144, 233, 377, 610, 987, 1597]);
    round_trip(&[7, 38, 69, 100, 131, 162]);
    round_trip(&[0, 1_000_000, 1_000_001, 500_000_000, MAX_ALLOWED_INTEGER]);
}

#[test]
fn round_trip_dense() {
    round_trip(&(0..500).collect::<Vec<i32>>());
    round_trip(&(29..95).collect::<Vec<i32>>());
    round_trip(&(0..400).filter(|v| v % 31 != 0).collect::<Vec<i32>>());
    round_trip(&(0..400).filter(|v| v % 31 != 30).collect::<Vec<i32>>());
    round_trip(&(0..400).filter(|v| v % 2 == 0).collect::<Vec<i32>>());
    round_trip(&(0..1000).filter(|v| v / 31 % 3 != 1).collect::<Vec<i32>>());
}

#[test]
fn round_trip_mixed_gaps() {
    let mut values = Vec::new();
    let mut v: i64 = 0;
    let mut state: u64 = 0x2545_F491_4F6C_DD1D;
    while values.len() < 5000 {
        state ^= state << 13;
        state ^= state >> 7;
        state ^= state << 17;
        let step = match state % 8 {
            0..=4 => 1,
            5 => 1 + (state >> 8) % 40,
            6 => 1 + (state >> 8) % 400,
            _ => 1 + (state >> 8) % 20_000,
        };
        v += step as i64;
        values.push(v as i32);
    }
    round_trip(&values);
}

#[test]
fn cardinality_counts_appends() {
    let mut c = CONCISE::new();
    assert_eq!(c.cardinality(), Cardinality::Count(0));
    assert_eq!(c.append(4), Ok(()));
    assert_eq!(c.cardinality(), Cardinality::Count(1));
    assert_eq!(c.append(40), Ok(()));
    assert_eq!(c.cardinality(), Cardinality::Count(2));
    assert_eq!(c.append(40), Err(AppendError::NotIncreasing));
    assert_eq!(c.cardinality(), Cardinality::Count(2));
}

#[test]
fn invalid_cardinality_stays_invalid() {
    let mut c = CONCISE::new();
    assert_eq!(c.append(4), Ok(()));
    c.invalidate_cardinality();
    assert_eq!(c.cardinality(), Cardinality::Invalid);
    for v in 5..200 {
        assert_eq!(c.append(v), Ok(()));
        assert_eq!(c.cardinality(), Cardinality::Invalid);
    }
    assert_eq!(decode(c.words()), (4..200).collect::<Vec<i64>>());
    assert_eq!(c.last(), 199);
}

#[test]
fn invalid_cardinality_before_the_first_append() {
    let mut c = CONCISE::new();
    c.invalidate_cardinality();
    assert_eq!(c.append(9), Ok(()));
    assert_eq!(c.cardinality(), Cardinality::Invalid);
    assert_eq!(c.words(), &[0x8000_0200]);
}

#[test]
fn negative_integer_is_refused() {
    let mut c = CONCISE::new();
    assert_eq!(c.append(-1), Err(AppendError::OutOfRange));
    assert_eq!(c.words(), &[] as &[u32]);
    assert_eq!(c.cardinality(), Cardinality::Count(0));
    assert_eq!(c.append(3), Ok(()));
    assert_eq!(c.append(i32::MIN), Err(AppendError::OutOfRange));
    assert_eq!(c.words(), &[0x8000_0008]);
    assert_eq!(c.last(), 3);
}

#[test]
fn integer_above_the_greatest_is_refused() {
    let mut c = CONCISE::new();
    assert_eq!(c.append(MAX_ALLOWED_INTEGER + 1), Err(AppendError::OutOfRange));
    assert_eq!(c.append(i32::MAX), Err(AppendError::OutOfRange));
    assert_eq!(c.capacity(), 0);
    assert_eq!(c.append(MAX_ALLOWED_INTEGER), Ok(()));
    assert_eq!(c.append(MAX_ALLOWED_INTEGER + 1), Err(AppendError::OutOfRange));
    assert_eq!(c.words(), &[0x01FF_FFFF, 0xC000_0000]);
}

#[test]
fn integer_not_above_the_last_is_refused() {
    let mut c = build(&[10, 50]);
    let before: Vec<u32> = c.buffer().to_vec();
    assert_eq!(c.append(50), Err(AppendError::NotIncreasing));
    assert_eq!(c.append(49), Err(AppendError::NotIncreasing));
    assert_eq!(c.append(0), Err(AppendError::NotIncreasing));
    assert_eq!(c.buffer(), &before[..]);
    assert_eq!(c.last(), 50);
    assert_eq!(c.cardinality(), Cardinality::Count(2));
    assert_eq!(c.append(51), Ok(()));
    assert_eq!(decode(c.words()), vec![10, 50, 51]);
}

#[test]
fn zero_is_refused_behind_zero() {
    let mut c = build(&[0]);
    assert_eq!(c.append(0), Err(AppendError::NotIncreasing));
    assert_eq!(c.words(), &[0x8000_0001]);
}

#[test]
fn buffer_grows_by_doubling() {
    let mut c = CONCISE::new();
    let mut capacities = Vec::new();
    for k in 0..9 {
        assert_eq!(c.append(31 * k + 1), Ok(()));
        capacities.push(c.capacity());
    }
    assert_eq!(capacities, vec![1, 2, 4, 4, 8, 8, 8, 8, 16]);
    assert_eq!(c.words().len(), 9);
    assert_eq!(&c.buffer()[..9], c.words());
    assert_eq!(&c.buffer()[9..], &[0u32; 7]);
}

#[test]
fn promoted_word_leaves_the_buffer_length_alone() {
    let mut c = build(&(0..=60).collect::<Vec<i32>>());
    assert_eq!(c.words(), &[ALL_ONES_LITERAL, 0xBFFF_FFFF]);
    assert_eq!(c.capacity(), 2);
    assert_eq!(c.append(61), Ok(()));
    assert_eq!(c.words(), &[0x4000_0001]);
    assert_eq!(c.capacity(), 2);
    assert_eq!(c.buffer(), &[0x4000_0001, ALL_ONES_LITERAL]);
    assert_eq!(c.append(62), Ok(()));
    assert_eq!(c.words(), &[0x4000_0001, 0x8000_0001]);
    assert_eq!(c.capacity(), 2);
}
