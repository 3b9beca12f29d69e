//! The computations of the programs that sort an ABI-encoded `int32[]` value or
//! solve a Sudoku grid sent as an ABI-encoded `string`: decode, compute, encode.
//! Reading the input and publishing the output are left to the caller.

use vstd::prelude::*;
use crate::abi::{
    abi_int32_array, abi_int32_array_decoding, abi_string, abi_string_decoding, decode_int32_array,
    decode_string, encode_int32_array, encode_string,
};
use crate::grid_text::{format_grid, grid_text, grid_text_values, parse_grid_text};
use crate::sudoku::{grid_outcome, solve_grid, SudokuError};
use crate::counting_sort::counting_sort;
use crate::heap_sort::heapsort;
use crate::insertion_sort::insertion_sort;
use crate::merge_sort::merge_sort;
use crate::sorting::{permutation, sorted};

verus! {

/// The largest value that the counting-sort program accepts.
pub const COUNTING_SORT_MAX: i32 = 10_000;

/// Why a program produced no output.
#[derive(Clone, Copy, Debug, PartialEq, Eq, Structural)]
pub enum RunError {
    /// The input is not the ABI encoding of a value of the expected type.
    UndecodableInput,
    /// An element lies outside `0..=COUNTING_SORT_MAX`.
    ValueOutOfRange,
    /// The decoded text is not a list of cell values.
    MalformedGridText,
    /// The grid was not solved.
    Sudoku(SudokuError),
}

/// `out` is the ABI encoding of the elements of `v` in ascending order.
pub open spec fn encodes_sorted(v: Seq<i32>, out: Seq<u8>) -> bool {
    exists|s: Seq<i32>| sorted(s) && permutation(s, v) && out == #[trigger] abi_int32_array(s)
}

/// What a sorting program gives for `input`.
pub open spec fn sort_outcome(input: Seq<u8>, r: Result<Vec<u8>, RunError>) -> bool {
    match abi_int32_array_decoding(input) {
        None => r == Err::<Vec<u8>, RunError>(RunError::UndecodableInput),
        Some(v) => r matches Ok(out) && encodes_sorted(v, out@),
    }
}

/// Decodes an `int32[]` value, sorts it with insertion sort, and encodes it.
pub fn run_insertion_sort(input: &[u8]) -> (r: Result<Vec<u8>, RunError>)
    ensures
        sort_outcome(input@, r),
{
    let mut arr = match decode_int32_array(input) {
        Ok(v) => v,
        Err(_) => {
            return Err(RunError::UndecodableInput);
        },
    };
    let ghost v = arr@;
    insertion_sort(&mut arr);
    let out = encode_int32_array(&arr);
    assert(sorted(arr@) && permutation(arr@, v) && out@ == abi_int32_array(arr@));
    Ok(out)
}

/// Decodes an `int32[]` value, sorts it with heapsort, and encodes it.
pub fn run_heap_sort(input: &[u8]) -> (r: Result<Vec<u8>, RunError>)
    ensures
        sort_outcome(input@, r),
{
    let mut arr = match decode_int32_array(input) {
        Ok(v) => v,
        Err(_) => {
            return Err(RunError::UndecodableInput);
        },
    };
    let ghost v = arr@;
    heapsort(arr.as_mut_slice());
    let out = encode_int32_array(&arr);
    assert(sorted(arr@) && permutation(arr@, v) && out@ == abi_int32_array(arr@));
    Ok(out)
}

/// Decodes an `int32[]` value, sorts it with merge sort, and encodes it.
pub fn run_merge_sort(input: &[u8]) -> (r: Result<Vec<u8>, RunError>)
    ensures
        sort_outcome(input@, r),
{
    let mut arr = match decode_int32_array(input) {
        Ok(v) => v,
        Err(_) => {
            return Err(RunError::UndecodableInput);
        },
    };
    let ghost v = arr@;
    let len = arr.len();
    if len > 0 {
        merge_sort(&mut arr, 0, len - 1);
    }
    let out = encode_int32_array(&arr);
    assert(sorted(arr@) && permutation(arr@, v) && out@ == abi_int32_array(arr@));
    Ok(out)
}

/// Every element lies in `0..=COUNTING_SORT_MAX`.
pub open spec fn in_counting_range(v: Seq<i32>) -> bool {
    forall|i: int| 0 <= i < v.len() ==> 0 <= #[trigger] v[i] <= COUNTING_SORT_MAX
}

/// What the counting-sort program gives for `input`.
pub open spec fn counting_sort_outcome(input: Seq<u8>, r: Result<Vec<u8>, RunError>) -> bool {
    match abi_int32_array_decoding(input) {
        None => r == Err::<Vec<u8>, RunError>(RunError::UndecodableInput),
        Some(v) => if in_counting_range(v) {
            r matches Ok(out) && encodes_sorted(v, out@)
        } else {
            r == Err::<Vec<u8>, RunError>(RunError::ValueOutOfRange)
        },
    }
}

/// Decodes an `int32[]` value whose elements all lie in
/// `0..=COUNTING_SORT_MAX`, sorts it with counting sort, and encodes it.
pub fn run_counting_sort(input: &[u8]) -> (r: Result<Vec<u8>, RunError>)
    ensures
        counting_sort_outcome(input@, r),
{
    let arr = match decode_int32_array(input) {
        Ok(v) => v,
        Err(_) => {
            return Err(RunError::UndecodableInput);
        },
    };
    let mut i: usize = 0;
    while i < arr.len()
        invariant
            i <= arr@.len(),
            abi_int32_array_decoding(input@) == Some(arr@),
            forall|j: int| 0 <= j < i ==> 0 <= #[trigger] arr@[j] <= COUNTING_SORT_MAX,
        decreases arr@.len() - i,
    {
        if arr[i] < 0 || arr[i] > COUNTING_SORT_MAX {
            assert(!(0 <= arr@[i as int] <= COUNTING_SORT_MAX));
            assert(!in_counting_range(arr@));
            return Err(RunError::ValueOutOfRange);
        }
        i += 1;
    }
    let sorted_array = counting_sort(arr.as_slice(), COUNTING_SORT_MAX);
    let out = encode_int32_array(&sorted_array);
    assert(sorted(sorted_array@) && permutation(sorted_array@, arr@) && out@ == abi_int32_array(
        sorted_array@,
    ));
    Ok(out)
}

/// What the Sudoku program gives once the input decoded to `cells`.
pub open spec fn sudoku_cells_outcome(cells: Seq<u8>, r: Result<Vec<u8>, RunError>) -> bool {
    match r {
        Ok(out) => exists|s: Vec<u8>|
            #[trigger] grid_outcome(cells, Ok(s)) && out@ == abi_string(grid_text(s@)),
        Err(RunError::Sudoku(e)) => grid_outcome(cells, Err(e)),
        Err(_) => false,
    }
}

/// What the Sudoku program gives for `input`.
pub open spec fn sudoku_outcome(input: Seq<u8>, r: Result<Vec<u8>, RunError>) -> bool {
    match abi_string_decoding(input) {
        None => r == Err::<Vec<u8>, RunError>(RunError::UndecodableInput),
        Some(text) => match grid_text_values(text) {
            None => r == Err::<Vec<u8>, RunError>(RunError::MalformedGridText),
            Some(cells) => sudoku_cells_outcome(cells, r),
        },
    }
}

/// Decodes a `string` that lists the cells of a grid, solves the grid, and
/// encodes the solution as a `string` of the same form.
pub fn run_sudoku(input: &[u8]) -> (r: Result<Vec<u8>, RunError>)
    ensures
        sudoku_outcome(input@, r),
{
    let text = match decode_string(input) {
        Ok(t) => t,
        Err(_) => {
            return Err(RunError::UndecodableInput);
        },
    };
    let cells = match parse_grid_text(text.as_slice()) {
        Some(c) => c,
        None => {
            return Err(RunError::MalformedGridText);
        },
    };
    let ghost g = cells@;
    let solved = solve_grid(cells);
    match solved {
        Ok(solution) => {
            let solution_text = format_grid(&solution);
            let out = encode_string(solution_text.as_slice());
            assert(grid_outcome(g, Ok::<Vec<u8>, SudokuError>(solution)));
            assert(sudoku_cells_outcome(g, Ok::<Vec<u8>, RunError>(out)));
            Ok(out)
        },
        Err(e) => {
            assert(grid_outcome(g, Err::<Vec<u8>, SudokuError>(e)));
            Err(RunError::Sudoku(e))
        },
    }
}

} // verus!
