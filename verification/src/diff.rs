//! The alignment of two texts along a longest common subsequence.

use vstd::prelude::*;
use crate::lcs::{build_table, is_row, is_table, lcs_len, Pair};
use crate::text::to_chars;

verus! {

/// A character that both texts hold, with its position in each.
#[derive(Clone, Copy, Debug, PartialEq, Eq)]
pub struct DiffChar {
    pub value: char,
    pub source_index: usize,
    pub changed_index: usize,
}

impl DiffChar {
    /// The entry that pairs position `s` of the source, where `v` stands,
    /// with position `c` of the changed text.
    pub fn new(v: char, s: usize, c: usize) -> (d: DiffChar)
        ensures
            d.value == v,
            d.source_index == s,
            d.changed_index == c,
    {
        DiffChar { value: v, source_index: s, changed_index: c }
    }
}

/// `al` pairs characters of the first `i` characters of `a` with equal
/// characters of the first `j` characters of `b`, and both positions grow
/// strictly from one entry to the next.
pub open spec fn aligns(al: Seq<DiffChar>, a: Seq<char>, b: Seq<char>, i: int, j: int) -> bool {
    &&& forall|k: int|
        0 <= k < al.len() ==> {
            &&& (#[trigger] al[k]).source_index < i
            &&& al[k].changed_index < j
            &&& al[k].value == a[al[k].source_index as int]
            &&& al[k].value == b[al[k].changed_index as int]
        }
    &&& forall|k: int, l: int|
        0 <= k < l < al.len() ==> {
            &&& (#[trigger] al[k]).source_index < (#[trigger] al[l]).source_index
            &&& al[k].changed_index < al[l].changed_index
        }
}

/// `al` is an alignment of the whole of `a` with the whole of `b`.
pub open spec fn is_alignment(al: Seq<DiffChar>, a: Seq<char>, b: Seq<char>) -> bool {
    aligns(al, a, b, a.len() as int, b.len() as int)
}

/// `al` is an alignment of `a` with `b`, and no alignment of them is longer.
pub open spec fn is_longest_alignment(al: Seq<DiffChar>, a: Seq<char>, b: Seq<char>) -> bool {
    &&& is_alignment(al, a, b)
    &&& forall|other: Seq<DiffChar>| #[trigger]
        is_alignment(other, a, b) ==> other.len() <= al.len()
}

/// The entry that pairs position `i` of `a` with position `j` of the other
/// text.
pub open spec fn matched(a: Seq<char>, i: int, j: int) -> DiffChar {
    DiffChar { value: a[i], source_index: i as usize, changed_index: j as usize }
}

/// The alignment found by walking the table back from the cell `(i, j)`:
/// up while the cell above is as long, else left while the cell to the left
/// is as long, else across a match, which becomes the last entry.
pub open spec fn alignment_upto(a: Seq<char>, b: Seq<char>, i: int, j: int) -> Seq<DiffChar>
    decreases i + j,
{
    if i <= 0 || j <= 0 {
        Seq::empty()
    } else if lcs_len(a, b, i, j) == lcs_len(a, b, i - 1, j) {
        alignment_upto(a, b, i - 1, j)
    } else if lcs_len(a, b, i, j) == lcs_len(a, b, i, j - 1) {
        alignment_upto(a, b, i, j - 1)
    } else {
        alignment_upto(a, b, i - 1, j - 1).push(matched(a, i - 1, j - 1))
    }
}

/// The alignment of `a` with `b`: the walk back from the table's last cell.
pub open spec fn alignment(a: Seq<char>, b: Seq<char>) -> Seq<DiffChar> {
    alignment_upto(a, b, a.len() as int, b.len() as int)
}

/// The walk back from `(i, j)` yields an alignment of the two prefixes, as
/// long as their longest common subsequence.
pub proof fn lemma_alignment_upto(a: Seq<char>, b: Seq<char>, i: int, j: int)
    requires
        0 <= i <= a.len() <= usize::MAX,
        0 <= j <= b.len() <= usize::MAX,
    ensures
        aligns(alignment_upto(a, b, i, j), a, b, i, j),
        alignment_upto(a, b, i, j).len() == lcs_len(a, b, i, j),
    decreases i + j,
{
    if i > 0 && j > 0 {
        let whole = alignment_upto(a, b, i, j);
        if lcs_len(a, b, i, j) == lcs_len(a, b, i - 1, j) {
            lemma_alignment_upto(a, b, i - 1, j);
            assert(aligns(whole, a, b, i, j));
        } else if lcs_len(a, b, i, j) == lcs_len(a, b, i, j - 1) {
            lemma_alignment_upto(a, b, i, j - 1);
            assert(aligns(whole, a, b, i, j));
        } else {
            lemma_alignment_upto(a, b, i - 1, j - 1);
            let rest = alignment_upto(a, b, i - 1, j - 1);
            assert(a[i - 1] == b[j - 1]);
            assert forall|k: int| 0 <= k < whole.len() implies {
                &&& (#[trigger] whole[k]).source_index < i
                &&& whole[k].changed_index < j
                &&& whole[k].value == a[whole[k].source_index as int]
                &&& whole[k].value == b[whole[k].changed_index as int]
            } by {
                if k < rest.len() {
                    assert(whole[k] == rest[k]);
                }
            }
            assert forall|k: int, l: int| 0 <= k < l < whole.len() implies {
                &&& (#[trigger] whole[k]).source_index < (#[trigger] whole[l]).source_index
                &&& whole[k].changed_index < whole[l].changed_index
            } by {
                assert(whole[k] == rest[k]);
                if l < rest.len() {
                    assert(whole[l] == rest[l]);
                }
            }
        }
    }
}

/// No alignment of two prefixes is longer than their longest common
/// subsequence.
pub proof fn lemma_aligned_len_bounded(al: Seq<DiffChar>, a: Seq<char>, b: Seq<char>, i: int, j: int)
    requires
        0 <= i <= a.len(),
        0 <= j <= b.len(),
        aligns(al, a, b, i, j),
    ensures
        al.len() <= lcs_len(a, b, i, j),
    decreases i + j,
{
    if al.len() > 0 {
        let last = al[al.len() - 1];
        let rest = al.drop_last();
        assert forall|k: int| 0 <= k < rest.len() implies (#[trigger] rest[k]).source_index
            < last.source_index && rest[k].changed_index < last.changed_index by {
            assert(rest[k] == al[k]);
        }
        if a[i - 1] == b[j - 1] {
            assert(aligns(rest, a, b, i - 1, j - 1));
            lemma_aligned_len_bounded(rest, a, b, i - 1, j - 1);
        } else if last.source_index < i - 1 {
            assert(aligns(al, a, b, i - 1, j));
            lemma_aligned_len_bounded(al, a, b, i - 1, j);
        } else {
            assert(aligns(al, a, b, i, j - 1));
            lemma_aligned_len_bounded(al, a, b, i, j - 1);
        }
    }
}

/// Walks `table` back from the cell `(i, j)` and returns the matches it
/// crosses, in the order of the texts.
pub fn backtrack(
    source: &Vec<char>,
    changed: &Vec<char>,
    table: &Vec<Vec<Pair>>,
    i: usize,
    j: usize,
) -> (lcs: Vec<DiffChar>)
    requires
        is_table(table@, source@, changed@),
        i <= source@.len(),
        j <= changed@.len(),
    ensures
        lcs@ == alignment_upto(source@, changed@, i as int, j as int),
{
    let mut lcs: Vec<DiffChar> = Vec::new();
    let mut i: usize = i;
    let mut j: usize = j;
    let ghost whole = alignment_upto(source@, changed@, i as int, j as int);
    while i > 0 && j > 0
        invariant
            is_table(table@, source@, changed@),
            i <= source@.len(),
            j <= changed@.len(),
            whole == alignment_upto(source@, changed@, i as int, j as int) + lcs@,
        decreases i + j,
    {
        assert(is_row(table@[i as int]@, source@, changed@, i as int, changed@.len() as int));
        assert(is_row(table@[i - 1]@, source@, changed@, i - 1, changed@.len() as int));
        let here: usize = table[i][j].first;
        if here == table[i - 1][j].first {
            i -= 1;
        } else if here == table[i][j - 1].first {
            j -= 1;
        } else {
            let ghost before = lcs@;
            let found = DiffChar::new(source[i - 1], i - 1, j - 1);
            lcs.insert(0, found);
            assert(alignment_upto(source@, changed@, i as int, j as int) + before
                =~= alignment_upto(source@, changed@, i - 1, j - 1) + lcs@);
            i -= 1;
            j -= 1;
        }
    }
    assert(whole =~= lcs@);
    lcs
}

/// Two texts and their alignment.
pub struct Diff {
    pub source: String,
    pub changed: String,
    pub diff: Vec<DiffChar>,
}

impl Diff {
    /// The entries of `diff` pair equal characters of `source` and `changed`
    /// at positions that grow strictly.
    pub open spec fn wf(&self) -> bool {
        is_alignment(self.diff@, self.source@, self.changed@)
    }

    /// The source text `s`, the changed text `c` and the entries `d`, as
    /// they are: whether `d` aligns the two is for `is_consistent` to tell.
    pub fn new(s: String, c: String, d: Vec<DiffChar>) -> (r: Diff)
        ensures
            r.source == s,
            r.changed == c,
            r.diff == d,
            r.wf() <==> is_alignment(d@, s@, c@),
    {
        Diff { source: s, changed: c, diff: d }
    }

    /// Tells whether the entries of `diff` are an alignment of `source`
    /// with `changed`.
    pub fn is_consistent(&self) -> (ok: bool)
        ensures
            ok == self.wf(),
    {
        let source = to_chars(self.source.as_str());
        let changed = to_chars(self.changed.as_str());
        let ghost al = self.diff@;
        let mut k: usize = 0;
        while k < self.diff.len()
            invariant
                al == self.diff@,
                source@ == self.source@,
                changed@ == self.changed@,
                k <= al.len(),
                is_alignment(al.take(k as int), source@, changed@),
            decreases al.len() - k,
        {
            let entry = self.diff[k];
            assert(entry == al[k as int]);
            if entry.source_index >= source.len() || entry.changed_index >= changed.len() {
                return false;
            }
            if source[entry.source_index] != entry.value || changed[entry.changed_index]
                != entry.value {
                return false;
            }
            if k > 0 {
                let before = self.diff[k - 1];
                assert(before == al[k - 1]);
                if before.source_index >= entry.source_index || before.changed_index
                    >= entry.changed_index {
                    return false;
                }
            }
            proof {
                let done = al.take(k as int);
                let more = al.take(k + 1);
                assert forall|p: int, q: int| 0 <= p < q < more.len() implies {
                    &&& (#[trigger] more[p]).source_index < (#[trigger] more[q]).source_index
                    &&& more[p].changed_index < more[q].changed_index
                } by {
                    assert(more[p] == done[p]);
                    if q < k {
                        assert(more[q] == done[q]);
                    } else if p < k - 1 {
                        assert(done[k - 1] == al[k - 1]);
                        assert(done[p].source_index < done[k - 1].source_index);
                    }
                }
                assert forall|p: int| 0 <= p < more.len() implies {
                    &&& (#[trigger] more[p]).source_index < source@.len()
                    &&& more[p].changed_index < changed@.len()
                    &&& more[p].value == source@[more[p].source_index as int]
                    &&& more[p].value == changed@[more[p].changed_index as int]
                } by {
                    if p < k {
                        assert(more[p] == done[p]);
                    }
                }
            }
            k += 1;
        }
        assert(al.take(k as int) =~= al);
        true
    }
}

/// Aligns `source` with `changed` along a longest common subsequence of
/// their characters.
pub fn diff(source: String, changed: String) -> (d: Diff)
    ensures
        d.source == source,
        d.changed == changed,
        d.diff@ == alignment(source@, changed@),
        d.wf(),
        is_longest_alignment(d.diff@, source@, changed@),
{
    let a = to_chars(source.as_str());
    let b = to_chars(changed.as_str());
    let table = build_table(&a, &b);
    let lcs = backtrack(&a, &b, &table, a.len(), b.len());
    proof {
        lemma_alignment_upto(a@, b@, a@.len() as int, b@.len() as int);
        assert forall|other: Seq<DiffChar>| #[trigger]
            is_alignment(other, a@, b@) implies other.len() <= lcs@.len() by {
            lemma_aligned_len_bounded(other, a@, b@, a@.len() as int, b@.len() as int);
        }
    }
    Diff::new(source, changed, lcs)
}

} // verus!
