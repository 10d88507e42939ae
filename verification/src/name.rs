//! The name of the file in which the enumeration for a Coxeter matrix is kept.
//!
//! The name is derived from the matrix alone, so that a later run with the
//! same matrix finds the file again: one base-36 digit for each entry on or
//! below the diagonal, row by row, followed by a fixed extension.

use vstd::prelude::*;
use vstd::string::*;

verus! {

/// The digit that stands for `n` in base 36: `0` to `9`, then `a` to `z`.
pub open spec fn digit36(n: int) -> char
    recommends
        0 <= n < 36,
{
    if n < 10 {
        ((48 + n) as u8) as char
    } else {
        ((87 + n) as u8) as char
    }
}

/// The extension that every cache file name ends with.
pub open spec fn extension() -> Seq<char> {
    seq!['.', 'f', 'l', 'a', 'g']
}

/// A square matrix as the sequence of its rows.
pub open spec fn grid<const D: usize>(m: [[u8; D]; D]) -> Seq<Seq<u8>> {
    Seq::new(D as nat, |r: int| m@[r]@)
}

/// The entries on and below the diagonal in the first `rows` rows, row by
/// row, each row from its first entry to the diagonal.
pub open spec fn triangle(m: Seq<Seq<u8>>, rows: nat) -> Seq<u8>
    recommends
        rows <= m.len(),
    decreases rows,
{
    if rows == 0 {
        Seq::empty()
    } else {
        triangle(m, (rows - 1) as nat) + m[rows - 1].take(rows as int)
    }
}

/// Every entry on or below the diagonal has a digit in base 36.
pub open spec fn has_name(m: Seq<Seq<u8>>) -> bool {
    forall|r: int, c: int| 0 <= c <= r < m.len() ==> #[trigger] m[r][c] < 36
}

/// The digits of a sequence of entries.
pub open spec fn digits(entries: Seq<u8>) -> Seq<char> {
    entries.map_values(|n: u8| digit36(n as int))
}

/// The cache file name of a Coxeter matrix.
pub open spec fn cache_name(m: Seq<Seq<u8>>) -> Seq<char> {
    digits(triangle(m, m.len())) + extension()
}

/// The base-36 digit of a number below 36.
pub fn digit(n: u8) -> (c: char)
    requires
        n < 36,
    ensures
        c == digit36(n as int),
{
    if n < 10 {
        (48u8 + n) as char
    } else {
        (87u8 + n) as char
    }
}

/// Whether a matrix has a cache file name: whether every entry on or below
/// its diagonal is below 36.
pub fn is_nameable<const D: usize>(m: &[[u8; D]; D]) -> (b: bool)
    ensures
        b == has_name(grid(*m)),
{
    let mut r: usize = 0;
    while r < D
        invariant
            r <= D,
            forall|i: int, j: int| 0 <= j <= i < r ==> #[trigger] grid(*m)[i][j] < 36,
        decreases D - r,
    {
        let mut c: usize = 0;
        while c <= r
            invariant
                r < D,
                c <= r + 1,
                forall|i: int, j: int| 0 <= j <= i < r ==> #[trigger] grid(*m)[i][j] < 36,
                forall|j: int| 0 <= j < c ==> #[trigger] grid(*m)[r as int][j] < 36,
            decreases r + 1 - c,
        {
            if m[r][c] >= 36 {
                assert(grid(*m)[r as int][c as int] >= 36);
                return false;
            }
            c = c + 1;
        }
        r = r + 1;
    }
    true
}

/// The name of the cache file for a Coxeter matrix: the base-36 digits of its
/// lower triangle, diagonal included, row by row, and the extension `.flag`.
pub fn coxmat_to_name<const D: usize>(m: [[u8; D]; D]) -> (name: String)
    requires
        has_name(grid(m)),
    ensures
        name@ == cache_name(grid(m)),
        name@.len() == D * (D + 1) / 2 + 5,
{
    let mut name = String::new();
    let mut r: usize = 0;
    assert(name@ =~= digits(triangle(grid(m), 0)));
    while r < D
        invariant
            r <= D,
            has_name(grid(m)),
            name@ == digits(triangle(grid(m), r as nat)),
        decreases D - r,
    {
        let mut c: usize = 0;
        assert(grid(m)[r as int].take(0) =~= Seq::<u8>::empty());
        assert(triangle(grid(m), r as nat) + Seq::<u8>::empty() =~= triangle(grid(m), r as nat));
        while c <= r
            invariant
                r < D,
                c <= r + 1,
                has_name(grid(m)),
                name@ == digits(triangle(grid(m), r as nat) + grid(m)[r as int].take(c as int)),
            decreases r + 1 - c,
        {
            let n: u8 = m[r][c];
            assert(n == grid(m)[r as int][c as int]);
            let ghost before = triangle(grid(m), r as nat) + grid(m)[r as int].take(c as int);
            name.push(digit(n));
            c = c + 1;
            assert(triangle(grid(m), r as nat) + grid(m)[r as int].take(c as int) =~= before.push(
                n,
            ));
            assert(digits(before.push(n)) =~= digits(before).push(digit36(n as int)));
        }
        r = r + 1;
    }
    proof {
        reveal_strlit(".flag");
        triangle_len(grid(m), D as nat);
    }
    assert(".flag"@ =~= extension());
    name.append(".flag");
    name
}

/// The lower triangle of the first `rows` rows of a square matrix holds
/// `rows * (rows + 1) / 2` entries.
pub proof fn triangle_len(m: Seq<Seq<u8>>, rows: nat)
    requires
        rows <= m.len(),
        forall|r: int| 0 <= r < m.len() ==> (#[trigger] m[r]).len() == m.len(),
    ensures
        triangle(m, rows).len() == rows * (rows + 1) / 2,
    decreases rows,
{
    if rows == 0 {
        assert(rows * (rows + 1) / 2 == 0) by (nonlinear_arith)
            requires
                rows == 0,
        ;
    } else {
        let less = (rows - 1) as nat;
        triangle_len(m, less);
        assert(m[rows - 1].take(rows as int).len() == rows);
        assert(less * (less + 1) / 2 + rows == rows * (rows + 1) / 2) by (nonlinear_arith)
            requires
                less + 1 == rows,
        ;
    }
}

} // verus!
