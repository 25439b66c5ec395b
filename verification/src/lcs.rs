//! The alignment table: for every pair of prefixes of two texts, the length
//! of their longest common subsequence.

use vstd::prelude::*;

verus! {

/// One cell of the alignment table.
///
/// `first` is the length of a longest common subsequence of the two
/// prefixes the cell stands for. `second` is the position, in the source
/// text, of the character matched last on the way to that length (0 where
/// nothing was matched yet).
#[derive(Clone, Copy, Debug, PartialEq, Eq)]
pub struct Pair {
    pub first: usize,
    pub second: usize,
}

impl Pair {
    /// The cell with length `f` and last match `s`.
    pub fn new(f: usize, s: usize) -> (p: Pair)
        ensures
            p.first == f,
            p.second == s,
    {
        Pair { first: f, second: s }
    }
}

/// Length of a longest common subsequence of the first `i` characters of `a`
/// and the first `j` characters of `b`.
pub open spec fn lcs_len(a: Seq<char>, b: Seq<char>, i: int, j: int) -> nat
    decreases i + j,
{
    if i <= 0 || j <= 0 {
        0
    } else if a[i - 1] == b[j - 1] {
        lcs_len(a, b, i - 1, j - 1) + 1
    } else {
        let above = lcs_len(a, b, i - 1, j);
        let left = lcs_len(a, b, i, j - 1);
        if above > left {
            above
        } else {
            left
        }
    }
}

/// Position in `a` of the character matched last on the path that the table
/// prefers for the prefixes `(i, j)`: the cell above where it is strictly
/// longer, the cell to the left otherwise.
pub open spec fn last_match(a: Seq<char>, b: Seq<char>, i: int, j: int) -> nat
    decreases i + j,
{
    if i <= 0 || j <= 0 {
        0
    } else if a[i - 1] == b[j - 1] {
        (i - 1) as nat
    } else if lcs_len(a, b, i - 1, j) > lcs_len(a, b, i, j - 1) {
        last_match(a, b, i - 1, j)
    } else {
        last_match(a, b, i, j - 1)
    }
}

/// `row` is row `i` of the table of `a` and `b`, filled up to column `upto`.
pub open spec fn is_row(row: Seq<Pair>, a: Seq<char>, b: Seq<char>, i: int, upto: int) -> bool {
    forall|j: int|
        0 <= j <= upto ==> (#[trigger] row[j]).first == lcs_len(a, b, i, j) && row[j].second
            == last_match(a, b, i, j)
}

/// `table` is the alignment table of `a` and `b`: one row for each prefix of
/// `a`, one column for each prefix of `b`, row and column 0 standing for the
/// empty prefix.
pub open spec fn is_table(table: Seq<Vec<Pair>>, a: Seq<char>, b: Seq<char>) -> bool {
    &&& table.len() == a.len() + 1
    &&& forall|i: int|
        0 <= i <= a.len() ==> (#[trigger] table[i])@.len() == b.len() + 1 && is_row(
            table[i]@,
            a,
            b,
            i,
            b.len() as int,
        )
}

/// A common subsequence is no longer than either prefix.
pub proof fn lemma_lcs_len_bounded(a: Seq<char>, b: Seq<char>, i: int, j: int)
    requires
        0 <= i,
        0 <= j,
    ensures
        lcs_len(a, b, i, j) <= i,
        lcs_len(a, b, i, j) <= j,
        last_match(a, b, i, j) <= i,
    decreases i + j,
{
    if i > 0 && j > 0 {
        lemma_lcs_len_bounded(a, b, i - 1, j - 1);
        lemma_lcs_len_bounded(a, b, i - 1, j);
        lemma_lcs_len_bounded(a, b, i, j - 1);
    }
}

/// Fills the alignment table of `source` and `changed`, row by row.
pub fn build_table(source: &Vec<char>, changed: &Vec<char>) -> (table: Vec<Vec<Pair>>)
    ensures
        is_table(table@, source@, changed@),
{
    let m: usize = source.len();
    let n: usize = changed.len();
    let mut top: Vec<Pair> = Vec::new();
    top.push(Pair::new(0, 0));
    let mut j: usize = 0;
    while j < n
        invariant
            j <= n,
            top@.len() == j + 1,
            is_row(top@, source@, changed@, 0, j as int),
        decreases n - j,
    {
        top.push(Pair::new(0, 0));
        j += 1;
    }
    let mut table: Vec<Vec<Pair>> = Vec::new();
    table.push(top);
    let mut i: usize = 0;
    while i < m
        invariant
            m == source@.len(),
            n == changed@.len(),
            i <= m,
            table@.len() == i + 1,
            forall|r: int|
                0 <= r <= i ==> (#[trigger] table@[r])@.len() == n + 1 && is_row(
                    table@[r]@,
                    source@,
                    changed@,
                    r,
                    n as int,
                ),
        decreases m - i,
    {
        let mut row: Vec<Pair> = Vec::new();
        row.push(Pair::new(0, 0));
        let mut j: usize = 0;
        while j < n
            invariant
                m == source@.len(),
                n == changed@.len(),
                i < m,
                j <= n,
                table@.len() == i + 1,
                table@[i as int]@.len() == n + 1,
                is_row(table@[i as int]@, source@, changed@, i as int, n as int),
                row@.len() == j + 1,
                is_row(row@, source@, changed@, i + 1, j as int),
            decreases n - j,
        {
            proof {
                lemma_lcs_len_bounded(source@, changed@, i as int, j as int);
            }
            let above: Pair = table[i][j + 1];
            let left: Pair = row[j];
            let cell = if source[i] == changed[j] {
                Pair::new(table[i][j].first + 1, i)
            } else if above.first > left.first {
                Pair::new(above.first, above.second)
            } else {
                Pair::new(left.first, left.second)
            };
            row.push(cell);
            j += 1;
        }
        table.push(row);
        i += 1;
    }
    table
}

} // verus!
