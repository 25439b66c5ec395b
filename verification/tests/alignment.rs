use chardiff::diff::{backtrack, diff, Diff, DiffChar};
use chardiff::lcs::{build_table, Pair};
use chardiff::text::to_chars;

fn entry(value: char, source_index: usize, changed_index: usize) -> DiffChar {
    DiffChar::new(value, source_index, changed_index)
}

fn chars(s: &str) -> Vec<char> {
    s.chars().collect()
}

/// Length of a longest common subsequence, by trying every choice.
fn longest_by_search(a: &[char], b: &[char]) -> usize {
    if a.is_empty() || b.is_empty() {
        return 0;
    }
    let skip_a = longest_by_search(&a[1..], b);
    let skip_b = longest_by_search(a, &b[1..]);
    let mut best = if skip_a > skip_b { skip_a } else { skip_b };
    if a[0] == b[0] {
        let both = 1 + longest_by_search(&a[1..], &b[1..]);
        if both > best {
            best = both;
        }
    }
    best
}

fn assert_valid(d: &Diff) {
    let source = chars(&d.source);
    let changed = chars(&d.changed);
    for k in 0..d.diff.len() {
        let e = d.diff[k];
        assert!(e.source_index < source.len());
        assert!(e.changed_index < changed.len());
        assert_eq!(e.value, source[e.source_index]);
        assert_eq!(e.value, changed[e.changed_index]);
        if k > 0 {
            assert!(d.diff[k - 1].source_index < e.source_index);
            assert!(d.diff[k - 1].changed_index < e.changed_index);
        }
    }
    assert!(d.is_consistent());
}

#[test]
fn to_chars_gives_characters_not_bytes() {
    assert_eq!(to_chars("héllo"), vec!['h', 'é', 'l', 'l', 'o']);
    assert_eq!(to_chars(""), Vec::<char>::new());
}

#[test]
fn pair_new_keeps_both_fields() {
    let p = Pair::new(3, 7);
    assert_eq!(p.first, 3);
    assert_eq!(p.second, 7);
}

#[test]
fn diff_char_new_keeps_fields() {
    let e = DiffChar::new('q', 4, 9);
    assert_eq!(e.value, 'q');
    assert_eq!(e.source_index, 4);
    assert_eq!(e.changed_index, 9);
}

#[test]
fn diff_new_keeps_fields() {
    let d = Diff::new("ab".to_string(), "b".to_string(), vec![entry('b', 1, 0)]);
    assert_eq!(d.source, "ab");
    assert_eq!(d.changed, "b");
    assert_eq!(d.diff, vec![entry('b', 1, 0)]);
}

#[test]
fn table_of_two_short_texts() {
    let table = build_table(&chars("ab"), &chars("ba"));
    let zero = Pair::new(0, 0);
    assert_eq!(
        table,
        vec![
            vec![zero, zero, zero],
            vec![zero, zero, Pair::new(1, 0)],
            vec![zero, Pair::new(1, 1), Pair::new(1, 1)],
        ]
    );
}

#[test]
fn table_prefers_row_above_only_when_longer() {
    // For "ab" against "ac" the cell above the last one holds length 1 from
    // the match of 'a', and so does the cell to its left: the left one wins.
    let table = build_table(&chars("ab"), &chars("ac"));
    assert_eq!(table[2][2], Pair::new(1, 0));
    // For "ba" against "ca" the last cell is a match at source position 1.
    let table = build_table(&chars("ba"), &chars("ca"));
    assert_eq!(table[2][2], Pair::new(1, 1));
    // For "ab" against "a" the bottom cell takes the longer cell above it.
    let table = build_table(&chars("ab"), &chars("a"));
    assert_eq!(table[2][1], Pair::new(1, 0));
}

#[test]
fn table_has_a_row_and_a_column_for_the_empty_prefix() {
    let table = build_table(&chars("abc"), &chars("xy"));
    assert_eq!(table.len(), 4);
    for row in &table {
        assert_eq!(row.len(), 3);
        assert_eq!(row[0].first, 0);
    }
    for cell in &table[0] {
        assert_eq!(cell.first, 0);
    }
}

#[test]
fn table_last_cell_is_length_of_longest_common_subsequence() {
    let table = build_table(&chars("ABCBDAB"), &chars("BDCABA"));
    assert_eq!(table[7][6].first, 4);
    // "ABC" against "BDC": "BC"
    assert_eq!(table[3][3].first, 2);
    // "AB" against "B": "B"
    assert_eq!(table[2][1].first, 1);
    // "A" against "BDC": nothing
    assert_eq!(table[1][3].first, 0);
    // "A" against "BDCABA": "A"
    assert_eq!(table[1][6].first, 1);
}

#[test]
fn backtrack_walks_from_any_cell() {
    let source = chars("abc");
    let changed = chars("cab");
    let table = build_table(&source, &changed);
    assert_eq!(
        backtrack(&source, &changed, &table, 3, 3),
        vec![entry('a', 0, 1), entry('b', 1, 2)]
    );
    assert_eq!(backtrack(&source, &changed, &table, 3, 1), vec![entry('c', 2, 0)]);
    assert_eq!(backtrack(&source, &changed, &table, 1, 2), vec![entry('a', 0, 1)]);
    assert_eq!(backtrack(&source, &changed, &table, 0, 3), vec![]);
    assert_eq!(backtrack(&source, &changed, &table, 3, 0), vec![]);
}

#[test]
fn diff_keeps_both_texts() {
    let d = diff("kitten".to_string(), "sitting".to_string());
    assert_eq!(d.source, "kitten");
    assert_eq!(d.changed, "sitting");
}

#[test]
fn diff_of_swapped_pair() {
    let d = diff("ab".to_string(), "ba".to_string());
    assert_eq!(d.diff, vec![entry('a', 0, 1)]);
}

#[test]
fn diff_starts_from_the_last_cell_not_the_last_match() {
    // The match scanned last, 'c', lies on no longest path.
    let d = diff("abc".to_string(), "cab".to_string());
    assert_eq!(d.diff, vec![entry('a', 0, 1), entry('b', 1, 2)]);
}

#[test]
fn diff_entries_are_valid() {
    let pairs = [
        ("ABCBDAB", "BDCABA"),
        ("kitten", "sitting"),
        ("", "abc"),
        ("abc", ""),
        ("aaaa", "aa"),
        ("héllo wörld", "hello world"),
    ];
    for (source, changed) in pairs {
        assert_valid(&diff(source.to_string(), changed.to_string()));
    }
}

#[test]
fn diff_is_as_long_as_a_longest_common_subsequence() {
    let mut state: u32 = 12345;
    let mut next = move || {
        state = state.wrapping_mul(1103515245).wrapping_add(12345);
        (state >> 16) as usize
    };
    let letters = ['a', 'b', 'c'];
    for _ in 0..60 {
        let source: String = (0..next() % 8).map(|_| letters[next() % 3]).collect();
        let changed: String = (0..next() % 8).map(|_| letters[next() % 3]).collect();
        let d = diff(source.clone(), changed.clone());
        assert_eq!(d.diff.len(), longest_by_search(&chars(&source), &chars(&changed)));
        assert_valid(&d);
    }
}

#[test]
fn diff_of_a_text_with_itself_is_the_whole_text() {
    for text in ["", "a", "hello", "aaaa", "naïve café"] {
        let d = diff(text.to_string(), text.to_string());
        let expected: Vec<DiffChar> =
            chars(text).into_iter().enumerate().map(|(k, c)| entry(c, k, k)).collect();
        assert_eq!(d.diff, expected);
    }
}

#[test]
fn diff_of_texts_with_nothing_in_common_is_empty() {
    let d = diff("abc".to_string(), "xyz".to_string());
    assert_eq!(d.diff, vec![]);
}

#[test]
fn diff_of_the_textbook_pair_has_four_entries() {
    let d = diff("ABCBDAB".to_string(), "BDCABA".to_string());
    assert_eq!(d.diff.len(), 4);
    assert_valid(&d);
    let common: String = d.diff.iter().map(|e| e.value).collect();
    assert!(common == "BCBA" || common == "BDAB" || common == "BCAB");
}

#[test]
fn diff_of_empty_texts() {
    assert_eq!(diff(String::new(), String::new()).diff, vec![]);
    assert_eq!(diff(String::new(), "ab".to_string()).diff, vec![]);
    assert_eq!(diff("ab".to_string(), String::new()).diff, vec![]);
}

#[test]
fn diff_counts_characters_not_bytes() {
    let d = diff("héllo".to_string(), "hello".to_string());
    assert_eq!(
        d.diff,
        vec![entry('h', 0, 0), entry('l', 2, 2), entry('l', 3, 3), entry('o', 4, 4)]
    );
}

#[test]
fn is_consistent_accepts_an_alignment() {
    let d = Diff::new(
        "abc".to_string(),
        "cab".to_string(),
        vec![entry('a', 0, 1), entry('b', 1, 2)],
    );
    assert!(d.is_consistent());
    assert!(Diff::new("abc".to_string(), "cab".to_string(), vec![]).is_consistent());
}

#[test]
fn is_consistent_rejects_what_is_no_alignment() {
    let make = |entries: Vec<DiffChar>| Diff::new("abc".to_string(), "cab".to_string(), entries);
    // a position past the end of either text
    assert!(!make(vec![entry('a', 3, 1)]).is_consistent());
    assert!(!make(vec![entry('a', 0, 3)]).is_consistent());
    // a character that is not the one at the position
    assert!(!make(vec![entry('b', 0, 1)]).is_consistent());
    assert!(!make(vec![entry('a', 0, 0)]).is_consistent());
    // positions that do not grow
    assert!(!make(vec![entry('b', 1, 2), entry('a', 0, 1)]).is_consistent());
    assert!(!make(vec![entry('a', 0, 1), entry('a', 0, 1)]).is_consistent());
    assert!(!make(vec![entry('c', 2, 0), entry('a', 0, 1)]).is_consistent());
}
