use algorithms::programs::{
    run_counting_sort, run_heap_sort, run_insertion_sort, run_merge_sort, run_sudoku, RunError,
    COUNTING_SORT_MAX,
};
use algorithms::sudoku::SudokuError;
use alloy_sol_types::SolValue;

fn encoded(v: &[i32]) -> Vec<u8> {
    v.to_vec().abi_encode()
}

const INPUT: [i32; 10] = [23, 7, 41, 15, 8, 34, 2, 19, 46, 12];
const SORTED: [i32; 10] = [2, 7, 8, 12, 15, 19, 23, 34, 41, 46];

#[test]
fn insertion_sort_program_round_trip() {
    let out = run_insertion_sort(&encoded(&INPUT)).unwrap();
    assert_eq!(out, encoded(&SORTED));
    assert_eq!(Vec::<i32>::abi_decode(&out).unwrap(), SORTED.to_vec());
}

#[test]
fn heap_sort_program_round_trip() {
    let out = run_heap_sort(&encoded(&INPUT)).unwrap();
    assert_eq!(out, encoded(&SORTED));
}

#[test]
fn merge_sort_program_round_trip() {
    let out = run_merge_sort(&encoded(&INPUT)).unwrap();
    assert_eq!(out, encoded(&SORTED));
    assert_eq!(run_merge_sort(&encoded(&[])).unwrap(), encoded(&[]));
}

#[test]
fn counting_sort_program_round_trip() {
    let out = run_counting_sort(&encoded(&INPUT)).unwrap();
    assert_eq!(out, encoded(&SORTED));
    let edge = [COUNTING_SORT_MAX, 0, 5];
    assert_eq!(run_counting_sort(&encoded(&edge)).unwrap(), encoded(&[0, 5, COUNTING_SORT_MAX]));
}

#[test]
fn counting_sort_program_rejects_out_of_range() {
    assert_eq!(run_counting_sort(&encoded(&[1, -1])), Err(RunError::ValueOutOfRange));
    assert_eq!(
        run_counting_sort(&encoded(&[COUNTING_SORT_MAX + 1])),
        Err(RunError::ValueOutOfRange)
    );
}

#[test]
fn programs_reject_undecodable_input() {
    let junk = vec![1u8, 2, 3];
    assert_eq!(run_insertion_sort(&junk), Err(RunError::UndecodableInput));
    assert_eq!(run_heap_sort(&junk), Err(RunError::UndecodableInput));
    assert_eq!(run_merge_sort(&junk), Err(RunError::UndecodableInput));
    assert_eq!(run_counting_sort(&junk), Err(RunError::UndecodableInput));
    assert_eq!(run_sudoku(&junk), Err(RunError::UndecodableInput));
}

#[test]
fn sudoku_program_solves_text_grid() {
    let input = String::from("0 2 3 4\n3 4 1 2\n2 1 4 3\n4 3 2 1").abi_encode();
    let out = run_sudoku(&input).unwrap();
    assert_eq!(out, String::from("1 2 3 4 3 4 1 2 2 1 4 3 4 3 2 1").abi_encode());
    assert_eq!(
        String::abi_decode(&out).unwrap(),
        "1 2 3 4 3 4 1 2 2 1 4 3 4 3 2 1".to_string()
    );
}

#[test]
fn sudoku_program_errors() {
    let bad_text = String::from("1 2 x 4").abi_encode();
    assert_eq!(run_sudoku(&bad_text), Err(RunError::MalformedGridText));
    let ten = String::from("0 0 0 0 0 0 0 0 0 0").abi_encode();
    assert_eq!(run_sudoku(&ten), Err(RunError::Sudoku(SudokuError::MalformedInput)));
    let stuck = String::from("0 0 2 3 0 1 0 0 4 0 0 0 0 0 0 0").abi_encode();
    assert_eq!(run_sudoku(&stuck), Err(RunError::Sudoku(SudokuError::Unsatisfiable)));
}
