//! Checks on the values that make up a relation matrix before it is analysed.
use vstd::prelude::*;

use crate::relation::{grid, is_boolean, is_relation_matrix, is_square};
use crate::Matrix;

verus! {

/// The fewest elements a relation is given on.
pub const MIN_SIZE: usize = 2;

/// The most elements a relation is given on.
pub const MAX_SIZE: usize = 10;

/// Why a row of input cannot be a row of the matrix.
#[derive(Clone, Copy, Debug, PartialEq, Eq, Structural)]
pub enum RowError {
    /// The row does not have one value per element.
    WrongLength,
    /// A value is neither 0 nor 1.
    NotBinary,
}

/// Whether `n` is an accepted number of elements.
pub fn is_valid_size(n: usize) -> (r: bool)
    ensures
        r == (MIN_SIZE <= n <= MAX_SIZE),
{
    MIN_SIZE <= n && n <= MAX_SIZE
}

/// Checks one row of input against the number of elements.
pub fn check_row(row: &Vec<u8>, size: usize) -> (r: Result<(), RowError>)
    ensures
        r == Err::<(), RowError>(RowError::WrongLength) <==> row@.len() != size,
        r == Err::<(), RowError>(RowError::NotBinary) <==> (row@.len() == size && exists|j: int|
            0 <= j < row@.len() && #[trigger] row@[j] != 0 && row@[j] != 1),
        r is Ok <==> (row@.len() == size && forall|j: int|
            0 <= j < row@.len() ==> #[trigger] row@[j] == 0 || row@[j] == 1),
{
    if row.len() != size {
        return Err(RowError::WrongLength);
    }
    for j in 0..row.len()
        invariant
            row@.len() == size,
            forall|b: int| 0 <= b < j ==> #[trigger] row@[b] == 0 || row@[b] == 1,
    {
        if row[j] != 0 && row[j] != 1 {
            assert(row@[j as int] != 0 && row@[j as int] != 1);
            return Err(RowError::NotBinary);
        }
    }
    Ok(())
}

/// Whether `matrix` is square with every cell 0 or 1.
pub fn is_valid_matrix(matrix: &Matrix) -> (r: bool)
    ensures
        r == is_relation_matrix(grid(matrix)),
{
    let ghost g = grid(matrix);
    let n = matrix.len();
    for i in 0..n
        invariant
            n == matrix@.len(),
            g == grid(matrix),
            forall|a: int| 0 <= a < i ==> #[trigger] g[a].len() == n,
            forall|a: int, b: int| 0 <= a < i && 0 <= b < g[a].len() ==> #[trigger] g[a][b] == 0 || g[a][b] == 1,
    {
        assert(g[i as int] == matrix@[i as int]@);
        match check_row(&matrix[i], n) {
            Ok(()) => {},
            Err(_) => {
                assert(!is_square(g) || !is_boolean(g));
                return false;
            },
        }
    }
    true
}

} // verus!
