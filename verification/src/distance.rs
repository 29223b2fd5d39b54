//! The line comparator's arithmetic core: Levenshtein edit distance with a
//! threshold bound.
//!
//! `edit_distance` is the mathematical distance (unit insertion, deletion and
//! substitution costs, on Unicode code points). The executable
//! `levenshtein_distance` computes it row by row over the usual cost matrix,
//! capping every cell at `threshold + 1`: the one promise callers rely on is
//! that the returned value is `<= threshold` exactly when the true distance
//! is. Two short-circuits skip the matrix when the lengths alone decide the
//! answer, and a row cutoff stops as soon as a whole row has climbed past the
//! threshold.

use vstd::prelude::*;
use vstd::string::StrSliceExecFns;

verus! {

/// The smaller of two integers.
pub open spec fn min2(a: int, b: int) -> int {
    if a <= b {
        a
    } else {
        b
    }
}

/// The absolute difference of two lengths.
pub open spec fn abs_diff(a: nat, b: nat) -> int {
    if a >= b {
        a - b
    } else {
        b - a
    }
}

/// Levenshtein distance between two character sequences: the least number of
/// single-character insertions, deletions and substitutions turning one into
/// the other.
pub open spec fn edit_distance(x: Seq<char>, y: Seq<char>) -> nat
    decreases x.len(), y.len(),
{
    if x.len() == 0 {
        y.len()
    } else if y.len() == 0 {
        x.len()
    } else {
        let del = edit_distance(x.drop_last(), y) as int + 1;
        let ins = edit_distance(x, y.drop_last()) as int + 1;
        let sub = edit_distance(x.drop_last(), y.drop_last()) + if x.last() == y.last() {
            0int
        } else {
            1int
        };
        min2(min2(del, ins), sub) as nat
    }
}

/// What `levenshtein_distance` returns: the threshold itself when it already
/// covers both lengths, and otherwise the true distance capped at one past
/// the threshold.
pub open spec fn bounded_edit_distance(x: Seq<char>, y: Seq<char>, t: nat) -> nat {
    if t >= x.len() && t >= y.len() {
        t
    } else {
        min2(edit_distance(x, y) as int, t as int + 1) as nat
    }
}

/// A sequence is at distance zero from itself.
pub proof fn lemma_edit_distance_self(x: Seq<char>)
    ensures
        edit_distance(x, x) == 0,
    decreases x.len(),
{
    if x.len() > 0 {
        lemma_edit_distance_self(x.drop_last());
    }
}

/// The distance is symmetric in its two arguments.
pub proof fn lemma_edit_distance_symmetric(x: Seq<char>, y: Seq<char>)
    ensures
        edit_distance(x, y) == edit_distance(y, x),
    decreases x.len(), y.len(),
{
    if x.len() > 0 && y.len() > 0 {
        lemma_edit_distance_symmetric(x.drop_last(), y);
        lemma_edit_distance_symmetric(x, y.drop_last());
        lemma_edit_distance_symmetric(x.drop_last(), y.drop_last());
    }
}

/// The distance never exceeds the longer length: replacing every character
/// and inserting or deleting the overhang always suffices.
pub proof fn lemma_edit_distance_le_max(x: Seq<char>, y: Seq<char>)
    ensures
        edit_distance(x, y) <= min2(x.len() as int, y.len() as int) + abs_diff(x.len(), y.len()),
        x.len() <= y.len() ==> edit_distance(x, y) <= y.len(),
        y.len() <= x.len() ==> edit_distance(x, y) <= x.len(),
    decreases x.len(), y.len(),
{
    if x.len() == 0 || y.len() == 0 {
    } else {
        lemma_edit_distance_le_max(x.drop_last(), y);
        lemma_edit_distance_le_max(x, y.drop_last());
        lemma_edit_distance_le_max(x.drop_last(), y.drop_last());
    }
}

/// The distance is at least the difference of the lengths: every edit changes
/// a length by at most one.
pub proof fn lemma_edit_distance_ge_diff(x: Seq<char>, y: Seq<char>)
    ensures
        edit_distance(x, y) >= abs_diff(x.len(), y.len()),
    decreases x.len(), y.len(),
{
    if x.len() == 0 || y.len() == 0 {
    } else {
        lemma_edit_distance_ge_diff(x.drop_last(), y);
        lemma_edit_distance_ge_diff(x, y.drop_last());
        lemma_edit_distance_ge_diff(x.drop_last(), y.drop_last());
    }
}

/// The matrix recurrence, phrased over prefixes: the cell at `(i, j)` is the
/// least of the three neighbouring cells plus their step costs.
proof fn lemma_edit_distance_step(x: Seq<char>, y: Seq<char>, i: int, j: int)
    requires
        1 <= i <= x.len(),
        1 <= j <= y.len(),
    ensures
        edit_distance(x.take(i), y.take(j)) as int == min2(
            min2(
                edit_distance(x.take(i - 1), y.take(j)) as int + 1,
                edit_distance(x.take(i), y.take(j - 1)) as int + 1,
            ),
            edit_distance(x.take(i - 1), y.take(j - 1)) as int + if x[i - 1] == y[j - 1] {
                0int
            } else {
                1int
            },
        ),
{
    let a = x.take(i);
    let b = y.take(j);
    assert(a.drop_last() =~= x.take(i - 1));
    assert(b.drop_last() =~= y.take(j - 1));
    assert(a.last() == x[i - 1]);
    assert(b.last() == y[j - 1]);
}

/// Left column of the matrix: distance from the empty prefix.
proof fn lemma_edit_distance_col0(x: Seq<char>, y: Seq<char>, j: int)
    requires
        0 <= j <= y.len(),
    ensures
        edit_distance(x.take(0), y.take(j)) == j,
{
    assert(x.take(0).len() == 0);
    assert(y.take(j).len() == j);
}

/// Top row of the matrix: distance to the empty prefix.
proof fn lemma_edit_distance_row0(x: Seq<char>, y: Seq<char>, i: int)
    requires
        0 <= i <= x.len(),
    ensures
        edit_distance(x.take(i), y.take(0)) == i,
{
    assert(x.take(i).len() == i);
    assert(y.take(0).len() == 0);
}

/// Once a whole matrix row exceeds the threshold, so does every cell of the
/// next row: each cell only looks back at that row and at its left neighbour.
proof fn lemma_cell_exceeds(x: Seq<char>, y: Seq<char>, j: int, t: int, i: int)
    requires
        0 <= j < y.len(),
        0 <= i <= x.len(),
        t >= 0,
        forall|k: int| 0 <= k <= x.len() ==> edit_distance(x.take(k), y.take(j)) > t,
    ensures
        edit_distance(x.take(i), y.take(j + 1)) > t,
    decreases i,
{
    if i == 0 {
        lemma_edit_distance_col0(x, y, j);
        assert(edit_distance(x.take(0), y.take(j)) > t);
        lemma_edit_distance_col0(x, y, j + 1);
    } else {
        lemma_cell_exceeds(x, y, j, t, i - 1);
        lemma_edit_distance_step(x, y, i, j + 1);
        assert(edit_distance(x.take(i), y.take(j)) > t);
        assert(edit_distance(x.take(i - 1), y.take(j)) > t);
    }
}

/// Push a row that exceeds the threshold all the way to the last row: the
/// final cell, the full distance, exceeds it too.
proof fn lemma_rows_exceed(x: Seq<char>, y: Seq<char>, j: int, t: int)
    requires
        0 <= j <= y.len(),
        t >= 0,
        forall|k: int| 0 <= k <= x.len() ==> edit_distance(x.take(k), y.take(j)) > t,
    ensures
        edit_distance(x, y) > t,
    decreases y.len() - j,
{
    if j == y.len() {
        assert(edit_distance(x.take(x.len() as int), y.take(j)) > t);
        assert(x.take(x.len() as int) =~= x);
        assert(y.take(y.len() as int) =~= y);
    } else {
        assert forall|k: int| 0 <= k <= x.len() implies edit_distance(x.take(k), y.take(j + 1))
            > t by {
            lemma_cell_exceeds(x, y, j, t, k);
        }
        lemma_rows_exceed(x, y, j + 1, t);
    }
}

/// The row cutoff is sound: if every interior cell of some row exceeds the
/// threshold, the true distance does as well. The left column needs no
/// check, because a cell of a row this deep cannot be that small.
proof fn lemma_cutoff(x: Seq<char>, y: Seq<char>, j: int, t: int)
    requires
        1 <= x.len(),
        1 <= j <= y.len(),
        t >= 0,
        forall|k: int| 1 <= k <= x.len() ==> edit_distance(x.take(k), y.take(j)) > t,
    ensures
        edit_distance(x, y) > t,
{
    lemma_edit_distance_le_max(x.take(1), y.take(j));
    assert(x.take(1).len() == 1);
    assert(y.take(j).len() == j);
    assert(edit_distance(x.take(1), y.take(j)) <= j);
    assert(j > t);
    assert forall|k: int| 0 <= k <= x.len() implies edit_distance(x.take(k), y.take(j)) > t by {
        if k == 0 {
            lemma_edit_distance_col0(x, y, j);
        }
    }
    lemma_rows_exceed(x, y, j, t);
}

/// Make a `Vec<char>`, so that lines can be indexed per code point.
pub fn to_char_vec(s: &str) -> (v: Vec<char>)
    ensures
        v@ == s@,
{
    let n = s.unicode_len();
    let mut v: Vec<char> = Vec::new();
    let mut i: usize = 0;
    while i < n
        invariant
            i <= n,
            n == s@.len(),
            v@ == s@.take(i as int),
        decreases n - i,
    {
        v.push(s.get_char(i));
        proof {
            assert(v@ =~= s@.take(i + 1));
        }
        i = i + 1;
    }
    proof {
        assert(s@.take(n as int) =~= s@);
    }
    v
}

/// A matrix cell as the executable code stores it: the distance between the
/// prefixes of lengths `i` and `j`, capped at `tcap`.
spec fn capped_cell(x: Seq<char>, y: Seq<char>, i: int, j: int, tcap: int) -> int {
    min2(edit_distance(x.take(i), y.take(j)) as int, tcap)
}

/// Compute the edit distance of 2 strings, with shortcuts.
///
/// For strings x and y with length m and n, the cost matrix has m+1 columns
/// and n+1 rows; only the previous row is kept. Moving right in a row
/// deletes a character of x, moving down a row inserts one, moving
/// diagonally substitutes. Every stored cell is capped at threshold + 1,
/// which leaves the answer to the only question callers ask — is the
/// distance within the threshold? — unchanged.
///
/// We stop computing if nothing in the current row is within the threshold.
/// We also skip the matrix when the threshold covers both lengths, or when
/// the length difference alone already exceeds it.
///
/// This algorithm runs at a time complexity of O(mn).
pub fn levenshtein_distance(x: &str, y: &str, threshold: usize) -> (r: usize)
    ensures
        r == bounded_edit_distance(x@, y@, threshold as nat),
        r <= threshold <==> edit_distance(x@, y@) <= threshold,
        threshold >= x@.len() && threshold >= y@.len() ==> r <= threshold,
        abs_diff(x@.len(), y@.len()) > threshold ==> r > threshold,
{
    proof {
        lemma_edit_distance_le_max(x@, y@);
        lemma_edit_distance_ge_diff(x@, y@);
    }
    let xs = to_char_vec(x);
    let ys = to_char_vec(y);
    let m = xs.len();
    let n = ys.len();

    // Distance is at most the length of the longer string
    if threshold >= m && threshold >= n {
        return threshold;
    }

    // Distance is at least the absolute value of the difference in sizes
    let diff = if m >= n {
        m - n
    } else {
        n - m
    };
    if diff > threshold {
        return threshold + 1;
    }

    let tcap = threshold + 1;

    // Row for j = 0: the distance is the prefix length itself.
    let mut prev: Vec<usize> = Vec::new();
    let mut i0: usize = 0;
    while i0 < m
        invariant
            i0 <= m,
            m == x@.len(),
            tcap == threshold + 1,
            prev.len() == i0,
            forall|k: int| 0 <= k < i0 ==> prev[k] as int == capped_cell(x@, y@, k, 0, tcap as int),
        decreases m - i0,
    {
        proof {
            lemma_edit_distance_row0(x@, y@, i0 as int);
        }
        prev.push(if i0 >= tcap {
            tcap
        } else {
            i0
        });
        i0 = i0 + 1;
    }
    proof {
        lemma_edit_distance_row0(x@, y@, m as int);
    }
    prev.push(if m >= tcap {
        tcap
    } else {
        m
    });

    let mut jj: usize = 0;
    while jj < n
        invariant
            jj <= n,
            m == x@.len(),
            n == y@.len(),
            1 <= m,
            1 <= n,
            threshold < m || threshold < n,
            tcap == threshold + 1,
            xs@ == x@,
            ys@ == y@,
            prev.len() == m + 1,
            forall|k: int|
                0 <= k <= m ==> prev[k] as int == capped_cell(x@, y@, k, jj as int, tcap as int),
        decreases n - jj,
    {
        let j = jj + 1;
        let mut cur: Vec<usize> = Vec::new();
        proof {
            lemma_edit_distance_col0(x@, y@, j as int);
        }
        cur.push(if j >= tcap {
            tcap
        } else {
            j
        });
        let mut has_changed_row = false;
        let mut ii: usize = 0;
        while ii < m
            invariant
                ii <= m,
                m == x@.len(),
                n == y@.len(),
                jj < n,
                j == jj + 1,
                tcap == threshold + 1,
                xs@ == x@,
                ys@ == y@,
                prev.len() == m + 1,
                forall|k: int|
                    0 <= k <= m ==> prev[k] as int == capped_cell(x@, y@, k, jj as int, tcap as int),
                cur.len() == ii + 1,
                forall|k: int|
                    0 <= k <= ii ==> cur[k] as int == capped_cell(x@, y@, k, j as int, tcap as int),
                !has_changed_row ==> forall|k: int|
                    1 <= k <= ii ==> edit_distance(x@.take(k), y@.take(j as int)) > threshold,
            decreases m - ii,
        {
            let i = ii + 1;
            let sub_cost: usize = if xs[ii] == ys[jj] {
                0
            } else {
                1
            };
            let up = if prev[i] > threshold {
                tcap
            } else {
                prev[i] + 1
            };
            let left = if cur[ii] > threshold {
                tcap
            } else {
                cur[ii] + 1
            };
            let diag = if prev[ii] > threshold {
                tcap
            } else {
                prev[ii] + sub_cost
            };
            let mut cell = up;
            if left < cell {
                cell = left;
            }
            if diag < cell {
                cell = diag;
            }
            proof {
                lemma_edit_distance_step(x@, y@, i as int, j as int);
            }
            if cell <= threshold {
                has_changed_row = true;
            }
            cur.push(cell);
            ii = ii + 1;
        }

        // Guarantee to not pass the threshold check
        if !has_changed_row {
            proof {
                lemma_cutoff(x@, y@, j as int, threshold as int);
            }
            return threshold + 1;
        }

        prev = cur;
        jj = jj + 1;
    }

    proof {
        assert(x@.take(m as int) =~= x@);
        assert(y@.take(n as int) =~= y@);
    }
    prev[m]
}

} // verus!
