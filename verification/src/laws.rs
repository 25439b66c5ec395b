//! What holds of every alignment and of every rendering.

use vstd::prelude::*;
use crate::diff::{
    alignment, alignment_upto, is_alignment, is_longest_alignment, lemma_aligned_len_bounded,
    lemma_alignment_upto, matched, DiffChar,
};
use crate::lcs::{lcs_len, lemma_lcs_len_bounded};
use crate::render::{rendered, rendered_upto, styled, CharClass, StyledChar};

verus! {

/// Every entry of the alignment of two texts holds the character that
/// stands at its position in the source and at its position in the changed
/// text, and both positions grow strictly from one entry to the next.
pub proof fn law_alignment_is_valid(source: Seq<char>, changed: Seq<char>)
    requires
        source.len() <= usize::MAX,
        changed.len() <= usize::MAX,
    ensures
        is_alignment(alignment(source, changed), source, changed),
{
    lemma_alignment_upto(source, changed, source.len() as int, changed.len() as int);
}

/// The alignment of two texts is as long as their longest common
/// subsequence: no other way of pairing equal characters in order pairs
/// more of them.
pub proof fn law_alignment_is_longest(source: Seq<char>, changed: Seq<char>)
    requires
        source.len() <= usize::MAX,
        changed.len() <= usize::MAX,
    ensures
        is_longest_alignment(alignment(source, changed), source, changed),
        alignment(source, changed).len() == lcs_len(
            source,
            changed,
            source.len() as int,
            changed.len() as int,
        ),
{
    lemma_alignment_upto(source, changed, source.len() as int, changed.len() as int);
    assert forall|other: Seq<DiffChar>| #[trigger]
        is_alignment(other, source, changed) implies other.len() <= alignment(
        source,
        changed,
    ).len() by {
        lemma_aligned_len_bounded(
            other,
            source,
            changed,
            source.len() as int,
            changed.len() as int,
        );
    }
}

/// A prefix of a text aligned with itself pairs each of its characters with
/// itself.
proof fn lemma_identity_upto(text: Seq<char>, i: int)
    requires
        0 <= i <= text.len(),
    ensures
        lcs_len(text, text, i, i) == i,
        alignment_upto(text, text, i, i) == Seq::new(i as nat, |k: int| matched(text, k, k)),
    decreases i,
{
    if i > 0 {
        lemma_identity_upto(text, i - 1);
        lemma_lcs_len_bounded(text, text, i - 1, i);
        lemma_lcs_len_bounded(text, text, i, i - 1);
        assert(alignment_upto(text, text, i, i) =~= Seq::new(
            i as nat,
            |k: int| matched(text, k, k),
        ));
    } else {
        assert(alignment_upto(text, text, i, i) =~= Seq::new(
            i as nat,
            |k: int| matched(text, k, k),
        ));
    }
}

/// The alignment of a text with itself is the whole text: every character
/// paired with itself, in order.
pub proof fn law_identity(text: Seq<char>)
    ensures
        alignment(text, text) == Seq::new(text.len(), |k: int| matched(text, k, k)),
{
    lemma_identity_upto(text, text.len() as int);
}

/// Two texts with no character in common have no alignment but the empty
/// one, and their rendering is the whole source as removed, then the whole
/// changed text as added.
pub proof fn law_disjoint(source: Seq<char>, changed: Seq<char>, al: Seq<DiffChar>)
    requires
        forall|i: int, j: int|
            0 <= i < source.len() && 0 <= j < changed.len() ==> source[i] != changed[j],
        is_alignment(al, source, changed),
    ensures
        al.len() == 0,
        rendered(source, changed, al) == styled(source, CharClass::Removed) + styled(
            changed,
            CharClass::Added,
        ),
{
    if al.len() > 0 {
        let entry = al[0];
        assert(source[entry.source_index as int] == changed[entry.changed_index as int]);
    }
    assert(rendered_upto(source, changed, al, 0) =~= Seq::<StyledChar>::empty());
    assert(source.subrange(0, source.len() as int) =~= source);
    assert(changed.subrange(0, changed.len() as int) =~= changed);
    assert(rendered(source, changed, al) =~= styled(source, CharClass::Removed) + styled(
        changed,
        CharClass::Added,
    ));
}

/// The rendering depends on the two texts and their alignment alone:
/// rendering the same diff again yields the same characters with the same
/// marks.
pub proof fn law_render_repeats(
    source: Seq<char>,
    changed: Seq<char>,
    al: Seq<DiffChar>,
    first: Seq<StyledChar>,
    second: Seq<StyledChar>,
)
    requires
        first == rendered(source, changed, al),
        second == rendered(source, changed, al),
    ensures
        first == second,
{
}

} // verus!
