//! Rendering a diff: every character of both texts, once, in the order of
//! the texts, marked as removed, added or common.

use vstd::prelude::*;
use vstd::string::StringExecFns;
use crate::diff::{is_alignment, Diff, DiffChar};
use crate::text::to_chars;

verus! {

/// How a rendered character relates to the two texts.
#[derive(Clone, Copy, Debug, PartialEq, Eq)]
pub enum CharClass {
    /// Only the source text holds it.
    Removed,
    /// Only the changed text holds it.
    Added,
    /// Both texts hold it, at aligned positions.
    Common,
}

/// One rendered character.
#[derive(Clone, Copy, Debug, PartialEq, Eq)]
pub struct StyledChar {
    pub value: char,
    pub class: CharClass,
}

impl StyledChar {
    /// The character `value` marked with `class`.
    pub fn new(value: char, class: CharClass) -> (c: StyledChar)
        ensures
            c == style(value, class),
    {
        StyledChar { value, class }
    }
}

/// The character `value` marked with `class`.
pub open spec fn style(value: char, class: CharClass) -> StyledChar {
    StyledChar { value, class }
}

/// Every character of `text`, marked with `class`.
pub open spec fn styled(text: Seq<char>, class: CharClass) -> Seq<StyledChar> {
    Seq::new(text.len(), |k: int| style(text[k], class))
}

/// Where the source text goes on after `k` entries of `al` were rendered.
pub open spec fn source_start(al: Seq<DiffChar>, k: int) -> int {
    if k <= 0 {
        0
    } else {
        al[k - 1].source_index + 1
    }
}

/// Where the changed text goes on after `k` entries of `al` were rendered.
pub open spec fn changed_start(al: Seq<DiffChar>, k: int) -> int {
    if k <= 0 {
        0
    } else {
        al[k - 1].changed_index + 1
    }
}

/// The rendering up to and including the `k`-th entry of `al`: before each
/// entry come the source characters since the entry before it, as removed,
/// then the changed characters since then, as added.
pub open spec fn rendered_upto(
    source: Seq<char>,
    changed: Seq<char>,
    al: Seq<DiffChar>,
    k: int,
) -> Seq<StyledChar>
    decreases k,
{
    if k <= 0 {
        Seq::empty()
    } else {
        rendered_upto(source, changed, al, k - 1) + styled(
            source.subrange(source_start(al, k - 1), al[k - 1].source_index as int),
            CharClass::Removed,
        ) + styled(
            changed.subrange(changed_start(al, k - 1), al[k - 1].changed_index as int),
            CharClass::Added,
        ).push(style(al[k - 1].value, CharClass::Common))
    }
}

/// The rendering of `source` and `changed` along `al`: all entries of `al`,
/// then what is left of `source`, as removed, then what is left of
/// `changed`, as added.
pub open spec fn rendered(source: Seq<char>, changed: Seq<char>, al: Seq<DiffChar>) -> Seq<
    StyledChar,
> {
    rendered_upto(source, changed, al, al.len() as int) + styled(
        source.subrange(source_start(al, al.len() as int), source.len() as int),
        CharClass::Removed,
    ) + styled(
        changed.subrange(changed_start(al, al.len() as int), changed.len() as int),
        CharClass::Added,
    )
}

/// The rendered characters that the source text holds.
pub open spec fn in_source() -> spec_fn(StyledChar) -> bool {
    |c: StyledChar| c.class != CharClass::Added
}

/// The rendered characters that the changed text holds.
pub open spec fn in_changed() -> spec_fn(StyledChar) -> bool {
    |c: StyledChar| c.class != CharClass::Removed
}

/// A rendered character without its mark.
pub open spec fn plain() -> spec_fn(StyledChar) -> char {
    |c: StyledChar| c.value
}

/// The removed and common characters of `out`, in order.
pub open spec fn source_text(out: Seq<StyledChar>) -> Seq<char> {
    out.filter(in_source()).map_values(plain())
}

/// The added and common characters of `out`, in order.
pub open spec fn changed_text(out: Seq<StyledChar>) -> Seq<char> {
    out.filter(in_changed()).map_values(plain())
}

/// Reading a text back from two renderings in a row reads it back from
/// each.
pub proof fn lemma_texts_of_concat(x: Seq<StyledChar>, y: Seq<StyledChar>)
    ensures
        source_text(x + y) == source_text(x) + source_text(y),
        changed_text(x + y) == changed_text(x) + changed_text(y),
{
    Seq::filter_distributes_over_add(x, y, in_source());
    Seq::filter_distributes_over_add(x, y, in_changed());
    assert(source_text(x + y) =~= source_text(x) + source_text(y));
    assert(changed_text(x + y) =~= changed_text(x) + changed_text(y));
}

/// One more rendered character is read back into the texts that hold it.
pub proof fn lemma_texts_of_push(x: Seq<StyledChar>, c: StyledChar)
    ensures
        source_text(x.push(c)) == if c.class == CharClass::Added {
            source_text(x)
        } else {
            source_text(x).push(c.value)
        },
        changed_text(x.push(c)) == if c.class == CharClass::Removed {
            changed_text(x)
        } else {
            changed_text(x).push(c.value)
        },
{
    x.lemma_filter_push(c, in_source());
    x.lemma_filter_push(c, in_changed());
    x.filter(in_source()).lemma_push_map_commute(plain(), c);
    x.filter(in_changed()).lemma_push_map_commute(plain(), c);
}

/// A text marked with one class is read back whole into the texts that hold
/// that class, and not at all into the other.
pub proof fn lemma_texts_of_styled(text: Seq<char>, class: CharClass)
    ensures
        source_text(styled(text, class)) == if class == CharClass::Added {
            Seq::<char>::empty()
        } else {
            text
        },
        changed_text(styled(text, class)) == if class == CharClass::Removed {
            Seq::<char>::empty()
        } else {
            text
        },
    decreases text.len(),
{
    if text.len() == 0 {
        assert(styled(text, class) =~= Seq::<StyledChar>::empty());
        assert(source_text(Seq::<StyledChar>::empty()) =~= Seq::<char>::empty());
        assert(changed_text(Seq::<StyledChar>::empty()) =~= Seq::<char>::empty());
        assert(text =~= Seq::<char>::empty());
    } else {
        let front = text.drop_last();
        lemma_texts_of_styled(front, class);
        assert(styled(text, class) =~= styled(front, class).push(style(text.last(), class)));
        lemma_texts_of_push(styled(front, class), style(text.last(), class));
        assert(front.push(text.last()) =~= text);
    }
}

/// What was rendered up to the `k`-th entry reads back as the two texts up
/// to that entry.
pub proof fn lemma_rendered_upto_reads_back(
    source: Seq<char>,
    changed: Seq<char>,
    al: Seq<DiffChar>,
    k: int,
)
    requires
        is_alignment(al, source, changed),
        0 <= k <= al.len(),
    ensures
        0 <= source_start(al, k) <= source.len(),
        0 <= changed_start(al, k) <= changed.len(),
        source_text(rendered_upto(source, changed, al, k)) == source.subrange(
            0,
            source_start(al, k),
        ),
        changed_text(rendered_upto(source, changed, al, k)) == changed.subrange(
            0,
            changed_start(al, k),
        ),
    decreases k,
{
    if k <= 0 {
        assert(source_text(Seq::<StyledChar>::empty()) =~= source.subrange(0, 0));
        assert(changed_text(Seq::<StyledChar>::empty()) =~= changed.subrange(0, 0));
    } else {
        lemma_rendered_upto_reads_back(source, changed, al, k - 1);
        let entry = al[k - 1];
        if k >= 2 {
            assert(al[k - 2].source_index < entry.source_index);
            assert(al[k - 2].changed_index < entry.changed_index);
        }
        let before = rendered_upto(source, changed, al, k - 1);
        let removed = styled(
            source.subrange(source_start(al, k - 1), entry.source_index as int),
            CharClass::Removed,
        );
        let added = styled(
            changed.subrange(changed_start(al, k - 1), entry.changed_index as int),
            CharClass::Added,
        );
        let common = style(entry.value, CharClass::Common);
        lemma_texts_of_styled(
            source.subrange(source_start(al, k - 1), entry.source_index as int),
            CharClass::Removed,
        );
        lemma_texts_of_styled(
            changed.subrange(changed_start(al, k - 1), entry.changed_index as int),
            CharClass::Added,
        );
        lemma_texts_of_push(added, common);
        lemma_texts_of_concat(before, removed);
        lemma_texts_of_concat(before + removed, added.push(common));
        assert(source_text(rendered_upto(source, changed, al, k)) =~= source.subrange(
            0,
            source_start(al, k),
        ));
        assert(changed_text(rendered_upto(source, changed, al, k)) =~= changed.subrange(
            0,
            changed_start(al, k),
        ));
    }
}

/// The removed and common characters of a rendering, in order, are the
/// source text; its added and common characters, in order, are the changed
/// text.
pub proof fn lemma_rendered_reads_back(source: Seq<char>, changed: Seq<char>, al: Seq<DiffChar>)
    requires
        is_alignment(al, source, changed),
    ensures
        source_text(rendered(source, changed, al)) == source,
        changed_text(rendered(source, changed, al)) == changed,
{
    let k = al.len() as int;
    lemma_rendered_upto_reads_back(source, changed, al, k);
    let body = rendered_upto(source, changed, al, k);
    let removed = styled(
        source.subrange(source_start(al, k), source.len() as int),
        CharClass::Removed,
    );
    let added = styled(
        changed.subrange(changed_start(al, k), changed.len() as int),
        CharClass::Added,
    );
    lemma_texts_of_styled(
        source.subrange(source_start(al, k), source.len() as int),
        CharClass::Removed,
    );
    lemma_texts_of_styled(
        changed.subrange(changed_start(al, k), changed.len() as int),
        CharClass::Added,
    );
    lemma_texts_of_concat(body, removed);
    lemma_texts_of_concat(body + removed, added);
    assert(source_text(rendered(source, changed, al)) =~= source);
    assert(changed_text(rendered(source, changed, al)) =~= changed);
}

/// Where the removed characters before entry `k` of `al` end in a source
/// text of `len` characters: at the entry's position, or at the end of the
/// text where no entry is left.
pub open spec fn source_stop(al: Seq<DiffChar>, k: int, len: int) -> int {
    if 0 <= k < al.len() && al[k].source_index < len {
        al[k].source_index as int
    } else {
        len
    }
}

/// Where the added characters before entry `k` of `al` end in a changed
/// text of `len` characters.
pub open spec fn changed_stop(al: Seq<DiffChar>, k: int, len: int) -> int {
    if 0 <= k < al.len() && al[k].changed_index < len {
        al[k].changed_index as int
    } else {
        len
    }
}

/// The `run` entries of `al` from entry `k` on sit at consecutive positions
/// of both texts, starting at `s` and `c`, and the entry after them, if
/// there is one, does not.
pub open spec fn is_common_run(al: Seq<DiffChar>, s: int, c: int, k: int, run: int) -> bool {
    &&& 0 <= run
    &&& k + run <= al.len()
    &&& forall|t: int|
        0 <= t < run ==> (#[trigger] al[k + t]).source_index == s + t && al[k + t].changed_index
            == c + t
    &&& k + run < al.len() ==> al[k + run].source_index != s + run || al[k + run].changed_index
        != c + run
}

/// A run of common characters that starts at entry `k` completes the
/// rendering up to the entry where it ends.
pub proof fn lemma_common_run(
    source: Seq<char>,
    changed: Seq<char>,
    al: Seq<DiffChar>,
    k: int,
    run: int,
)
    requires
        is_alignment(al, source, changed),
        0 <= k < al.len(),
        1 <= run,
        k + run <= al.len(),
        forall|t: int|
            0 <= t < run ==> (#[trigger] al[k + t]).source_index == al[k].source_index + t
                && al[k + t].changed_index == al[k].changed_index + t,
    ensures
        rendered_upto(source, changed, al, k + run) == rendered_upto(source, changed, al, k)
            + styled(
            source.subrange(source_start(al, k), al[k].source_index as int),
            CharClass::Removed,
        ) + styled(
            changed.subrange(changed_start(al, k), al[k].changed_index as int),
            CharClass::Added,
        ) + styled(
            source.subrange(al[k].source_index as int, al[k].source_index + run),
            CharClass::Common,
        ),
    decreases run,
{
    let s = al[k].source_index as int;
    let c = al[k].changed_index as int;
    let base = rendered_upto(source, changed, al, k) + styled(
        source.subrange(source_start(al, k), s),
        CharClass::Removed,
    ) + styled(changed.subrange(changed_start(al, k), c), CharClass::Added);
    assert(al[k + 0] == al[k]);
    if run == 1 {
        assert(rendered_upto(source, changed, al, k + 1) =~= base + styled(
            source.subrange(s, s + 1),
            CharClass::Common,
        ));
    } else {
        lemma_common_run(source, changed, al, k, run - 1);
        let last = al[k + (run - 1)];
        let before = al[k + (run - 2)];
        assert(last.source_index == s + run - 1);
        assert(before.source_index == s + run - 2);
        assert(source.subrange(s + run - 1, s + run - 1) =~= Seq::<char>::empty());
        assert(changed.subrange(c + run - 1, c + run - 1) =~= Seq::<char>::empty());
        assert(rendered_upto(source, changed, al, k + run) =~= base + styled(
            source.subrange(s, s + run),
            CharClass::Common,
        ));
    }
}

/// The character `c` as a terminal shows an insertion: in green.
pub open spec fn green_text(c: char) -> Seq<char> {
    "\x1b[32m"@.push(c) + "\x1b[0m"@
}

/// The character `c` as a terminal shows a deletion: in red.
pub open spec fn red_text(c: char) -> Seq<char> {
    "\x1b[31m"@.push(c) + "\x1b[0m"@
}

/// One rendered character as a terminal shows it: a removed one in red, an
/// added one in green, a common one as it is.
pub open spec fn painted(c: StyledChar) -> Seq<char> {
    match c.class {
        CharClass::Removed => red_text(c.value),
        CharClass::Added => green_text(c.value),
        CharClass::Common => seq![c.value],
    }
}

/// `painted`, as a value.
pub open spec fn painter() -> spec_fn(StyledChar) -> Seq<char> {
    |c: StyledChar| painted(c)
}

/// A rendering as a terminal shows it.
pub open spec fn terminal_text(out: Seq<StyledChar>) -> Seq<char> {
    out.map_values(painter()).flatten()
}

/// `c` between the codes that switch a terminal to green and back.
pub fn green(c: char) -> (s: String)
    ensures
        s@ == green_text(c),
{
    let mut s = "\x1b[32m".to_owned();
    s.push(c);
    s.append("\x1b[0m");
    s
}

/// `c` between the codes that switch a terminal to red and back.
pub fn red(c: char) -> (s: String)
    ensures
        s@ == red_text(c),
{
    let mut s = "\x1b[31m".to_owned();
    s.push(c);
    s.append("\x1b[0m");
    s
}

impl Diff {
    /// Appends to `out`, as removed, the characters of `source` from
    /// `source_idx` up to the position of entry `diff_idx`, or up to the end
    /// where no entry is left. Returns where it stopped.
    pub fn print_source_removal(
        &self,
        source: &Vec<char>,
        out: &mut Vec<StyledChar>,
        source_idx: usize,
        diff_idx: usize,
    ) -> (next: usize)
        requires
            source_idx <= source@.len(),
        ensures
            next == if source_idx < source_stop(self.diff@, diff_idx as int, source@.len() as int) {
                source_stop(self.diff@, diff_idx as int, source@.len() as int)
            } else {
                source_idx as int
            },
            final(out)@ == old(out)@ + styled(
                source@.subrange(source_idx as int, next as int),
                CharClass::Removed,
            ),
    {
        let mut source_idx: usize = source_idx;
        let ghost first = source_idx;
        while source_idx < source.len() && (diff_idx >= self.diff.len() || source_idx
            < self.diff[diff_idx].source_index)
            invariant
                first <= source_idx <= source@.len(),
                source_idx <= source_stop(self.diff@, diff_idx as int, source@.len() as int)
                    || source_idx == first,
                out@ == old(out)@ + styled(
                    source@.subrange(first as int, source_idx as int),
                    CharClass::Removed,
                ),
            decreases source@.len() - source_idx,
        {
            out.push(StyledChar::new(source[source_idx], CharClass::Removed));
            source_idx += 1;
            assert(out@ =~= old(out)@ + styled(
                source@.subrange(first as int, source_idx as int),
                CharClass::Removed,
            ));
        }
        assert(out@ =~= old(out)@ + styled(
            source@.subrange(first as int, source_idx as int),
            CharClass::Removed,
        ));
        source_idx
    }

    /// Appends to `out`, as added, the characters of `changed` from
    /// `changed_idx` up to the position of entry `diff_idx`, or up to the
    /// end where no entry is left. Returns where it stopped.
    pub fn print_changed_addition(
        &self,
        changed: &Vec<char>,
        out: &mut Vec<StyledChar>,
        changed_idx: usize,
        diff_idx: usize,
    ) -> (next: usize)
        requires
            changed_idx <= changed@.len(),
        ensures
            next == if changed_idx < changed_stop(
                self.diff@,
                diff_idx as int,
                changed@.len() as int,
            ) {
                changed_stop(self.diff@, diff_idx as int, changed@.len() as int)
            } else {
                changed_idx as int
            },
            final(out)@ == old(out)@ + styled(
                changed@.subrange(changed_idx as int, next as int),
                CharClass::Added,
            ),
    {
        let mut changed_idx: usize = changed_idx;
        let ghost first = changed_idx;
        while changed_idx < changed.len() && (diff_idx >= self.diff.len() || changed_idx
            < self.diff[diff_idx].changed_index)
            invariant
                first <= changed_idx <= changed@.len(),
                changed_idx <= changed_stop(self.diff@, diff_idx as int, changed@.len() as int)
                    || changed_idx == first,
                out@ == old(out)@ + styled(
                    changed@.subrange(first as int, changed_idx as int),
                    CharClass::Added,
                ),
            decreases changed@.len() - changed_idx,
        {
            out.push(StyledChar::new(changed[changed_idx], CharClass::Added));
            changed_idx += 1;
            assert(out@ =~= old(out)@ + styled(
                changed@.subrange(first as int, changed_idx as int),
                CharClass::Added,
            ));
        }
        assert(out@ =~= old(out)@ + styled(
            changed@.subrange(first as int, changed_idx as int),
            CharClass::Added,
        ));
        changed_idx
    }

    /// Appends to `out`, as common, the characters of the entries from
    /// `diff_idx` on that sit exactly at the two cursors, one after the
    /// other. Returns the three cursors behind that run.
    pub fn print_common_subsequence(
        &self,
        source: &Vec<char>,
        out: &mut Vec<StyledChar>,
        source_idx: usize,
        changed_idx: usize,
        diff_idx: usize,
    ) -> (next: (usize, usize, usize))
        requires
            self.wf(),
            source@ == self.source@,
            self.changed@.len() <= usize::MAX,
            source_idx <= source@.len(),
            diff_idx <= self.diff@.len(),
        ensures
            is_common_run(
                self.diff@,
                source_idx as int,
                changed_idx as int,
                diff_idx as int,
                next.2 - diff_idx,
            ),
            next.0 - source_idx == next.2 - diff_idx,
            next.1 - changed_idx == next.2 - diff_idx,
            final(out)@ == old(out)@ + styled(
                source@.subrange(source_idx as int, next.0 as int),
                CharClass::Common,
            ),
    {
        let ghost s0 = source_idx;
        let ghost c0 = changed_idx;
        let ghost k0 = diff_idx;
        let mut source_idx: usize = source_idx;
        let mut changed_idx: usize = changed_idx;
        let mut diff_idx: usize = diff_idx;
        while diff_idx < self.diff.len() && source_idx == self.diff[diff_idx].source_index
            && changed_idx == self.diff[diff_idx].changed_index
            invariant
                self.wf(),
                source@ == self.source@,
                self.changed@.len() <= usize::MAX,
                k0 <= diff_idx <= self.diff@.len(),
                source_idx - s0 == diff_idx - k0,
                changed_idx - c0 == diff_idx - k0,
                source_idx <= source@.len(),
                forall|t: int|
                    0 <= t < diff_idx - k0 ==> (#[trigger] self.diff@[k0 + t]).source_index == s0
                        + t && self.diff@[k0 + t].changed_index == c0 + t,
                out@ == old(out)@ + styled(
                    source@.subrange(s0 as int, source_idx as int),
                    CharClass::Common,
                ),
            decreases self.diff@.len() - diff_idx,
        {
            let ghost entry = self.diff@[diff_idx as int];
            assert(entry == self.diff@[k0 + (diff_idx - k0)]);
            assert(entry.source_index < source.len());
            assert(entry.changed_index < self.changed@.len());
            out.push(StyledChar::new(source[source_idx], CharClass::Common));
            source_idx += 1;
            changed_idx += 1;
            diff_idx += 1;
            assert(out@ =~= old(out)@ + styled(
                source@.subrange(s0 as int, source_idx as int),
                CharClass::Common,
            ));
        }
        assert(out@ =~= old(out)@ + styled(
            source@.subrange(s0 as int, source_idx as int),
            CharClass::Common,
        ));
        (source_idx, changed_idx, diff_idx)
    }

    /// Every character of both texts, once: those of the source that no
    /// entry of the alignment holds as removed, those of the changed text
    /// that no entry holds as added, the aligned ones as common, in an order
    /// that keeps the order of both texts.
    pub fn render(&self) -> (out: Vec<StyledChar>)
        requires
            self.wf(),
        ensures
            out@ == rendered(self.source@, self.changed@, self.diff@),
            source_text(out@) == self.source@,
            changed_text(out@) == self.changed@,
    {
        let source = to_chars(self.source.as_str());
        let changed = to_chars(self.changed.as_str());
        let mut out: Vec<StyledChar> = Vec::new();
        let mut source_idx: usize = 0;
        let mut changed_idx: usize = 0;
        let mut diff_idx: usize = 0;
        let source_len: usize = source.len();
        let changed_len: usize = changed.len();
        let ghost al = self.diff@;
        while source_idx < source_len || changed_idx < changed_len || diff_idx < self.diff.len()
            invariant
                self.wf(),
                source_len == source@.len(),
                changed_len == changed@.len(),
                al == self.diff@,
                source@ == self.source@,
                changed@ == self.changed@,
                source_idx <= source@.len(),
                changed_idx <= changed@.len(),
                diff_idx <= al.len(),
                ({
                    &&& source_idx == source_start(al, diff_idx as int)
                    &&& changed_idx == changed_start(al, diff_idx as int)
                    &&& out@ == rendered_upto(source@, changed@, al, diff_idx as int)
                }) || ({
                    &&& diff_idx == al.len()
                    &&& source_idx == source@.len()
                    &&& changed_idx == changed@.len()
                    &&& out@ == rendered(source@, changed@, al)
                }),
            decreases
                    (al.len() - diff_idx) + (source@.len() - source_idx) + (changed@.len()
                        - changed_idx),
        {
            let ghost k = diff_idx as int;
            proof {
                lemma_rendered_upto_reads_back(source@, changed@, al, k);
                if k < al.len() {
                    let entry = al[k];
                    assert(entry.source_index < source@.len());
                    if k > 0 {
                        assert(al[k - 1].source_index < entry.source_index);
                        assert(al[k - 1].changed_index < entry.changed_index);
                    }
                }
            }
            source_idx = self.print_source_removal(&source, &mut out, source_idx, diff_idx);
            changed_idx = self.print_changed_addition(&changed, &mut out, changed_idx, diff_idx);
            let next = self.print_common_subsequence(
                &source,
                &mut out,
                source_idx,
                changed_idx,
                diff_idx,
            );
            proof {
                let run = next.2 - diff_idx;
                if k < al.len() {
                    assert(al[k + 0] == al[k]);
                    assert(run >= 1);
                    lemma_common_run(source@, changed@, al, k, run);
                    assert(al[k + (run - 1)].source_index == al[k].source_index + (run - 1));
                } else {
                    assert(source@.subrange(next.0 as int, next.0 as int) =~= Seq::<
                        char,
                    >::empty());
                    assert(out@ =~= rendered(source@, changed@, al));
                }
            }
            source_idx = next.0;
            changed_idx = next.1;
            diff_idx = next.2;
        }
        proof {
            assert(source@.subrange(source@.len() as int, source@.len() as int) =~= Seq::<
                char,
            >::empty());
            assert(changed@.subrange(changed@.len() as int, changed@.len() as int) =~= Seq::<
                char,
            >::empty());
            assert(out@ =~= rendered(source@, changed@, al));
            lemma_rendered_reads_back(source@, changed@, al);
        }
        out
    }

    /// The rendering as a terminal shows it: removed characters in red,
    /// added ones in green, common ones as they are.
    pub fn print(&self) -> (text: String)
        requires
            self.wf(),
        ensures
            text@ == terminal_text(rendered(self.source@, self.changed@, self.diff@)),
    {
        let out = self.render();
        let mut text = String::new();
        let mut i: usize = 0;
        assert(out@.take(0) =~= Seq::<StyledChar>::empty());
        assert(terminal_text(Seq::<StyledChar>::empty()) =~= Seq::<char>::empty());
        while i < out.len()
            invariant
                i <= out@.len(),
                text@ == terminal_text(out@.take(i as int)),
            decreases out@.len() - i,
        {
            let c = out[i];
            proof {
                let done = out@.take(i as int);
                assert(out@.take(i + 1) =~= done.push(c));
                done.lemma_push_map_commute(painter(), c);
                done.map_values(painter()).lemma_flatten_push(painted(c));
            }
            match c.class {
                CharClass::Removed => text.append(red(c.value).as_str()),
                CharClass::Added => text.append(green(c.value).as_str()),
                CharClass::Common => text.push(c.value),
            }
            i += 1;
        }
        assert(out@.take(out@.len() as int) =~= out@);
        text
    }
}

} // verus!
