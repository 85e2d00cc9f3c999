use voxel_rle::rle_array::{RLEArray, OUT_OF_RANGE};

fn pushed(groups: &[(u8, usize)]) -> RLEArray<u8> {
    let mut array = RLEArray::new();
    for &(value, times) in groups {
        for _ in 0..times {
            array.push(value);
        }
    }
    array
}

fn elements(array: &RLEArray<u8>) -> Vec<u8> {
    let mut out = Vec::new();
    for i in 0..array.len() {
        out.push(array.get(i).unwrap());
    }
    out
}

#[test]
fn new_is_empty() {
    let array: RLEArray<u8> = RLEArray::new();
    assert_eq!(array.len(), 0);
    assert_eq!(array.data_len(), 0);
    assert!(array.data.is_empty());
    assert_eq!(array.get(0), Err("Index out of range"));
}

#[test]
fn error_message_is_fixed() {
    assert_eq!(OUT_OF_RANGE, "Index out of range");
}

#[test]
fn with_capacity_zero_has_no_run() {
    let array = RLEArray::with_capacity(7u8, 0);
    assert_eq!(array.len(), 0);
    assert_eq!(array.data_len(), 0);
    assert_eq!(array.get(0), Err(OUT_OF_RANGE));
}

#[test]
fn with_capacity_below_one_run() {
    let array = RLEArray::with_capacity(7u8, 10);
    assert_eq!(array.data, vec![(7, 10)]);
    assert_eq!(array.len(), 10);
    assert_eq!(array.data_len(), 1);
}

#[test]
fn with_capacity_exact_multiple_has_no_remainder_run() {
    let one = RLEArray::with_capacity(3u8, 255);
    assert_eq!(one.data, vec![(3, 255)]);
    assert_eq!(one.data_len(), 1);
    assert_eq!(one.len(), 255);
    let two = RLEArray::with_capacity(3u8, 510);
    assert_eq!(two.data, vec![(3, 255), (3, 255)]);
    assert_eq!(two.data_len(), 2);
    assert_eq!(two.len(), 510);
}

#[test]
fn with_capacity_with_remainder() {
    let array = RLEArray::with_capacity(4u8, 600);
    assert_eq!(array.data, vec![(4, 255), (4, 255), (4, 90)]);
    assert_eq!(array.data_len(), 3);
    assert_eq!(array.len(), 600);
    let next = RLEArray::with_capacity(4u8, 256);
    assert_eq!(next.data, vec![(4, 255), (4, 1)]);
}

#[test]
fn with_capacity_every_element_is_default() {
    let array = RLEArray::with_capacity(9u8, 700);
    for i in 0..700 {
        assert_eq!(array.get(i), Ok(9));
    }
    assert_eq!(array.get(700), Err(OUT_OF_RANGE));
}

#[test]
fn with_capacity_has_no_empty_run() {
    for n in [0usize, 1, 254, 255, 256, 509, 510, 511, 765, 1000] {
        let array = RLEArray::with_capacity(1u8, n);
        assert!(array.data.iter().all(|run| run.1 >= 1));
        assert_eq!(array.data_len(), (n + 254) / 255);
        assert_eq!(array.len(), n);
    }
}

#[test]
fn push_same_value_counts_runs() {
    for n in [0usize, 1, 2, 254, 255, 256, 510, 511, 1000] {
        let array = pushed(&[(5, n)]);
        assert_eq!(array.len(), n);
        assert_eq!(array.data_len(), (n + 254) / 255);
    }
}

#[test]
fn push_builds_the_runs_of_with_capacity() {
    for n in [0usize, 1, 255, 256, 600] {
        assert_eq!(pushed(&[(6, n)]).data, RLEArray::with_capacity(6u8, n).data);
    }
}

#[test]
fn push_full_run_starts_a_new_one() {
    let mut array = pushed(&[(5, 255)]);
    assert_eq!(array.data, vec![(5, 255)]);
    array.push(5);
    assert_eq!(array.data, vec![(5, 255), (5, 1)]);
    array.push(5);
    assert_eq!(array.data, vec![(5, 255), (5, 2)]);
}

#[test]
fn push_other_value_starts_a_new_run() {
    let mut array = pushed(&[(5, 2)]);
    array.push(6);
    array.push(5);
    assert_eq!(array.data, vec![(5, 2), (6, 1), (5, 1)]);
    assert_eq!(elements(&array), vec![5, 5, 6, 5]);
}

#[test]
fn push_then_get_returns_the_value() {
    let mut array = RLEArray::new();
    for i in 0..600usize {
        let value = (i / 7 % 5) as u8;
        array.push(value);
        assert_eq!(array.get(i), Ok(value));
        assert_eq!(array.len(), i + 1);
    }
    for i in 0..600usize {
        assert_eq!(array.get(i), Ok((i / 7 % 5) as u8));
    }
}

#[test]
fn get_reads_each_run() {
    let array = pushed(&[(8, 8), (2, 3), (8, 5)]);
    for i in 0..8 {
        assert_eq!(array.get(i), Ok(8));
    }
    for i in 8..11 {
        assert_eq!(array.get(i), Ok(2));
    }
    for i in 11..16 {
        assert_eq!(array.get(i), Ok(8));
    }
}

#[test]
fn get_past_the_end_is_out_of_range() {
    let array = pushed(&[(8, 8), (2, 3), (8, 5)]);
    assert_eq!(array.get(16), Err(OUT_OF_RANGE));
    assert_eq!(array.get(17), Err(OUT_OF_RANGE));
    assert_eq!(array.get(usize::MAX), Err(OUT_OF_RANGE));
    let split = RLEArray { data: vec![(8u8, 3), (8, 5), (2, 1), (2, 2), (8, 5)] };
    assert_eq!(split.len(), 16);
    assert_eq!(split.get(15), Ok(8));
    assert_eq!(split.get(16), Err(OUT_OF_RANGE));
}

#[test]
fn scenario_push_then_remove() {
    let mut array = pushed(&[(8, 8), (2, 3), (8, 5)]);
    assert_eq!(array.len(), 16);
    assert_eq!(array.data, vec![(8, 8), (2, 3), (8, 5)]);
    assert_eq!(array.remove(8), Ok(()));
    assert_eq!(array.data, vec![(8, 8), (2, 2), (8, 5)]);
    assert_eq!(array.len(), 15);
    assert_eq!(array.remove(8), Ok(()));
    assert_eq!(array.data, vec![(8, 8), (2, 1), (8, 5)]);
    assert_eq!(array.len(), 14);
    assert_eq!(array.remove(13), Ok(()));
    assert_eq!(array.data, vec![(8, 8), (2, 1), (8, 4)]);
    assert_eq!(array.len(), 13);
}

#[test]
fn scenario_insert_splits_the_run() {
    let mut array = RLEArray { data: vec![(8u8, 8), (2, 1), (8, 4)] };
    assert_eq!(array.insert(9, 7), Ok(()));
    assert_eq!(array.data, vec![(8, 7), (9, 1), (8, 1), (2, 1), (8, 4)]);
    assert_eq!(array.len(), 14);
    assert_eq!(array.get(7), Ok(9));
    assert_eq!(array.get(6), Ok(8));
    assert_eq!(array.get(8), Ok(8));
    assert_eq!(array.get(9), Ok(2));
}

#[test]
fn insert_same_value_grows_the_run() {
    let mut array = pushed(&[(8, 8), (2, 3)]);
    assert_eq!(array.insert(8, 3), Ok(()));
    assert_eq!(array.data, vec![(8, 9), (2, 3)]);
    assert_eq!(array.insert(2, 9), Ok(()));
    assert_eq!(array.data, vec![(8, 9), (2, 4)]);
}

#[test]
fn insert_same_value_into_full_run_adds_a_run_behind() {
    let mut array = pushed(&[(8, 255), (2, 3)]);
    assert_eq!(array.insert(8, 100), Ok(()));
    assert_eq!(array.data, vec![(8, 255), (8, 1), (2, 3)]);
    assert_eq!(array.len(), 259);
    assert_eq!(array.get(100), Ok(8));
    assert_eq!(array.get(255), Ok(8));
    assert_eq!(array.get(256), Ok(2));
}

#[test]
fn insert_in_the_middle_cuts_left_new_right() {
    let mut array = pushed(&[(8, 8)]);
    assert_eq!(array.insert(1, 3), Ok(()));
    assert_eq!(array.data, vec![(8, 3), (1, 1), (8, 5)]);
    assert_eq!(elements(&array), vec![8, 8, 8, 1, 8, 8, 8, 8, 8]);
}

#[test]
fn insert_at_run_start_keeps_the_run() {
    let mut array = pushed(&[(8, 2), (2, 3)]);
    assert_eq!(array.insert(7, 2), Ok(()));
    assert_eq!(array.data, vec![(8, 2), (7, 1), (2, 3)]);
    assert_eq!(elements(&array), vec![8, 8, 7, 2, 2, 2]);
    assert_eq!(array.insert(6, 0), Ok(()));
    assert_eq!(array.data, vec![(6, 1), (8, 2), (7, 1), (2, 3)]);
}

#[test]
fn insert_at_start_of_single_element_run_keeps_the_element() {
    let mut array = pushed(&[(8, 2), (2, 1), (8, 1)]);
    assert_eq!(array.insert(7, 2), Ok(()));
    assert_eq!(array.data, vec![(8, 2), (7, 1), (2, 1), (8, 1)]);
    assert_eq!(array.len(), 5);
    assert_eq!(elements(&array), vec![8, 8, 7, 2, 8]);
    let mut one = pushed(&[(3, 1)]);
    assert_eq!(one.insert(4, 0), Ok(()));
    assert_eq!(one.data, vec![(4, 1), (3, 1)]);
}

#[test]
fn insert_out_of_range_changes_nothing() {
    let mut array = pushed(&[(8, 2), (2, 3)]);
    assert_eq!(array.insert(1, 5), Err(OUT_OF_RANGE));
    assert_eq!(array.insert(1, 6), Err(OUT_OF_RANGE));
    assert_eq!(array.data, vec![(8, 2), (2, 3)]);
    let mut empty: RLEArray<u8> = RLEArray::new();
    assert_eq!(empty.insert(1, 0), Err(OUT_OF_RANGE));
    assert_eq!(empty.data_len(), 0);
}

#[test]
fn insert_then_get_returns_the_value() {
    for idx in 0..16usize {
        let mut array = pushed(&[(8, 8), (2, 3), (8, 5)]);
        let before = elements(&array);
        assert_eq!(array.insert(9, idx), Ok(()));
        assert_eq!(array.len(), 17);
        assert_eq!(array.get(idx), Ok(9));
        let mut expected = before.clone();
        expected.insert(idx, 9);
        assert_eq!(elements(&array), expected);
    }
}

#[test]
fn remove_single_element_run_removes_the_run() {
    let mut array = pushed(&[(8, 2), (2, 1), (8, 4)]);
    assert_eq!(array.remove(2), Ok(()));
    assert_eq!(array.data, vec![(8, 2), (8, 4)]);
    assert_eq!(array.data_len(), 2);
    assert_eq!(array.len(), 6);
}

#[test]
fn remove_does_not_merge_neighbours() {
    let mut array = pushed(&[(1, 1), (2, 1), (1, 1)]);
    assert_eq!(array.remove(1), Ok(()));
    assert_eq!(array.data, vec![(1, 1), (1, 1)]);
    array.push(1);
    assert_eq!(array.data, vec![(1, 1), (1, 2)]);
    assert_eq!(elements(&array), vec![1, 1, 1]);
}

#[test]
fn remove_out_of_range_changes_nothing() {
    let mut array = pushed(&[(8, 2), (2, 3)]);
    assert_eq!(array.remove(5), Err(OUT_OF_RANGE));
    assert_eq!(array.data, vec![(8, 2), (2, 3)]);
    let mut empty: RLEArray<u8> = RLEArray::new();
    assert_eq!(empty.remove(0), Err(OUT_OF_RANGE));
}

#[test]
fn remove_everything() {
    let mut array = pushed(&[(8, 2), (2, 3)]);
    for left in (0..5usize).rev() {
        assert_eq!(array.remove(0), Ok(()));
        assert_eq!(array.len(), left);
    }
    assert_eq!(array.data_len(), 0);
    assert_eq!(array.remove(0), Err(OUT_OF_RANGE));
}

#[test]
fn set_in_the_middle_of_a_run() {
    let mut array = RLEArray { data: vec![(8u8, 8), (2, 1), (8, 4)] };
    assert_eq!(array.set(1, 4), Ok(()));
    assert_eq!(array.data, vec![(8, 4), (1, 1), (8, 3), (2, 1), (8, 4)]);
    assert_eq!(array.len(), 13);
    assert_eq!(array.get(4), Ok(1));
}

#[test]
fn set_last_element_of_a_run() {
    let mut array = pushed(&[(8, 3), (2, 2)]);
    assert_eq!(array.set(7, 2), Ok(()));
    assert_eq!(array.data, vec![(8, 2), (7, 1), (2, 2)]);
    assert_eq!(elements(&array), vec![8, 8, 7, 2, 2]);
    let mut joined = pushed(&[(8, 3), (2, 2)]);
    assert_eq!(joined.set(2, 2), Ok(()));
    assert_eq!(joined.data, vec![(8, 2), (2, 3)]);
    assert_eq!(elements(&joined), vec![8, 8, 2, 2, 2]);
}

#[test]
fn set_single_element_run_in_place() {
    let mut array = pushed(&[(8, 3), (2, 1), (8, 2)]);
    assert_eq!(array.set(5, 3), Ok(()));
    assert_eq!(array.data, vec![(8, 3), (5, 1), (8, 2)]);
    assert_eq!(array.set(8, 3), Ok(()));
    assert_eq!(array.data, vec![(8, 3), (8, 1), (8, 2)]);
    assert_eq!(array.len(), 6);
}

#[test]
fn set_same_value_keeps_the_elements() {
    let mut array = pushed(&[(8, 3), (2, 2)]);
    assert_eq!(array.set(8, 1), Ok(()));
    assert_eq!(array.data, vec![(8, 3), (2, 2)]);
    assert_eq!(array.set(8, 2), Ok(()));
    assert_eq!(array.data, vec![(8, 2), (8, 1), (2, 2)]);
    assert_eq!(elements(&array), vec![8, 8, 8, 2, 2]);
}

#[test]
fn set_last_index_is_accepted() {
    let mut array = pushed(&[(8, 3), (2, 2)]);
    assert_eq!(array.set(9, 4), Ok(()));
    assert_eq!(array.data, vec![(8, 3), (2, 1), (9, 1)]);
    assert_eq!(array.get(4), Ok(9));
    assert_eq!(array.len(), 5);
    let mut same = pushed(&[(8, 3), (2, 2)]);
    assert_eq!(same.set(2, 4), Ok(()));
    assert_eq!(same.data, vec![(8, 3), (2, 2)]);
    let mut single = pushed(&[(8, 3), (2, 1)]);
    assert_eq!(single.set(9, 3), Ok(()));
    assert_eq!(single.data, vec![(8, 3), (9, 1)]);
    let mut only = pushed(&[(8, 1)]);
    assert_eq!(only.set(9, 0), Ok(()));
    assert_eq!(only.data, vec![(9, 1)]);
}

#[test]
fn set_at_the_length_is_out_of_range() {
    let mut array = pushed(&[(8, 3), (2, 2)]);
    assert_eq!(array.set(9, 5), Err(OUT_OF_RANGE));
    assert_eq!(array.set(9, 6), Err(OUT_OF_RANGE));
    assert_eq!(array.data, vec![(8, 3), (2, 2)]);
    let mut empty: RLEArray<u8> = RLEArray::new();
    assert_eq!(empty.set(9, 0), Err(OUT_OF_RANGE));
    assert_eq!(empty.data_len(), 0);
}

#[test]
fn set_then_get_returns_the_value_at_every_index() {
    for idx in 0..16usize {
        for value in [8u8, 2, 9] {
            let mut array = pushed(&[(8, 8), (2, 3), (8, 5)]);
            let mut expected = elements(&array);
            assert_eq!(array.set(value, idx), Ok(()));
            expected[idx] = value;
            assert_eq!(array.get(idx), Ok(value));
            assert_eq!(array.len(), 16);
            assert_eq!(elements(&array), expected);
        }
    }
}

#[test]
fn set_on_full_run() {
    let mut array = pushed(&[(8, 255), (8, 255)]);
    assert_eq!(array.set(1, 254), Ok(()));
    assert_eq!(array.data, vec![(8, 254), (1, 1), (8, 255)]);
    assert_eq!(array.len(), 510);
    assert_eq!(array.set(8, 254), Ok(()));
    assert_eq!(array.data, vec![(8, 254), (8, 1), (8, 255)]);
}

#[test]
fn mutation_fragments_and_never_merges() {
    let mut array = RLEArray::with_capacity(0u8, 20);
    assert_eq!(array.data_len(), 1);
    for i in [3usize, 9, 15] {
        assert_eq!(array.set(1, i), Ok(()));
    }
    assert_eq!(array.data_len(), 7);
    for i in [3usize, 9, 15] {
        assert_eq!(array.set(0, i), Ok(()));
    }
    assert_eq!(array.data_len(), 7);
    assert_eq!(array.data, vec![(0, 3), (0, 1), (0, 5), (0, 1), (0, 5), (0, 1), (0, 4)]);
    assert_eq!(elements(&array), vec![0; 20]);
}

#[test]
fn agrees_with_a_plain_vector() {
    let mut array: RLEArray<u8> = RLEArray::new();
    let mut plain: Vec<u8> = Vec::new();
    let mut state: u64 = 0x2545_F491_4F6C_DD1D;
    for _ in 0..4000 {
        state = state.wrapping_mul(6364136223846793005).wrapping_add(1442695040888963407);
        let op = (state >> 60) as u8;
        let value = ((state >> 40) % 3) as u8;
        let idx = ((state >> 8) as usize) % (plain.len() + 2);
        if op < 6 {
            array.push(value);
            plain.push(value);
        } else if op < 10 {
            let got = array.insert(value, idx);
            if idx < plain.len() {
                plain.insert(idx, value);
                assert_eq!(got, Ok(()));
            } else {
                assert_eq!(got, Err(OUT_OF_RANGE));
            }
        } else if op < 13 {
            let got = array.set(value, idx);
            if idx < plain.len() {
                plain[idx] = value;
                assert_eq!(got, Ok(()));
            } else {
                assert_eq!(got, Err(OUT_OF_RANGE));
            }
        } else {
            let got = array.remove(idx);
            if idx < plain.len() {
                plain.remove(idx);
                assert_eq!(got, Ok(()));
            } else {
                assert_eq!(got, Err(OUT_OF_RANGE));
            }
        }
        assert_eq!(array.len(), plain.len());
        assert!(array.data.iter().all(|run| run.1 >= 1));
        if idx < plain.len() {
            assert_eq!(array.get(idx), Ok(plain[idx]));
        } else {
            assert_eq!(array.get(idx), Err(OUT_OF_RANGE));
        }
    }
    assert_eq!(elements(&array), plain);
}

#[test]
fn other_element_types() {
    let mut letters: RLEArray<char> = RLEArray::new();
    for c in ['a', 'a', 'b', 'a'] {
        letters.push(c);
    }
    assert_eq!(letters.data, vec![('a', 2), ('b', 1), ('a', 1)]);
    assert_eq!(letters.get(2), Ok('b'));
    assert_eq!(letters.get_pretty_string(), "[a-2]; [b-1]; [a-1]; ");
    let mut flags = RLEArray::with_capacity(false, 3);
    assert_eq!(flags.set(true, 1), Ok(()));
    assert_eq!(flags.data, vec![(false, 1), (true, 1), (false, 1)]);
    let numbers = RLEArray::with_capacity(-5i32, 2);
    assert_eq!(numbers.get_pretty_string(), "[-5-2]; ");
}
