use ascii_tree::entry::{readable, Entry};
use ascii_tree::order::text_le;
use ascii_tree::sorting::sort_entries;

const TEXTS: [&str; 14] =
    ["", "a", "A", "ab", "abc", "b", "a/b", "a.b", "a b", "é", "e", "z", "€", "𝄞"];

#[test]
fn dictionary_order_of_texts() {
    assert!(text_le("", ""));
    assert!(text_le("", "a"));
    assert!(!text_le("a", ""));
    assert!(text_le("a", "a"));
    assert!(text_le("a", "ab"));
    assert!(!text_le("ab", "a"));
    assert!(text_le("ab", "b"));
    assert!(!text_le("b", "ab"));
    assert!(text_le("B", "a"));
    assert!(text_le("R/a", "R/b"));
    assert!(text_le("R/a", "R/a.b"));
    assert!(text_le("z", "é"));
}

#[test]
fn dictionary_order_is_that_of_the_standard_library() {
    for a in TEXTS {
        for b in TEXTS {
            assert_eq!(text_le(a, b), a <= b, "{:?} {:?}", a, b);
        }
    }
}

#[test]
fn entries_are_ordered_by_path_first() {
    let a = Entry::new("d/a", "z", true);
    let b = Entry::new("d/b", "a", false);
    assert!(a.precedes(&b));
    assert!(!b.precedes(&a));
    assert!(a.precedes(&a));
}

#[test]
fn entries_with_one_path_are_ordered_by_name_and_kind() {
    let file = Entry::new("p", "n", false);
    let dir = Entry::new("p", "n", true);
    let other = Entry::new("p", "o", false);
    assert!(file.precedes(&dir));
    assert!(!dir.precedes(&file));
    assert!(dir.precedes(&other));
    assert!(!other.precedes(&dir));
    assert!(dir.precedes(&dir));
}

fn paths(entries: &[Entry]) -> Vec<String> {
    entries.iter().map(|e| e.path.clone()).collect()
}

#[test]
fn sorting_orders_as_the_standard_library_orders_the_paths() {
    let listing: Vec<Entry> =
        TEXTS.iter().rev().map(|t| Entry::new(t, "name", t.len() % 2 == 0)).collect();
    let mut expected: Vec<String> = TEXTS.iter().map(|t| t.to_string()).collect();
    expected.sort();
    let sorted = sort_entries(listing);
    assert_eq!(paths(&sorted), expected);
    for entry in &sorted {
        assert_eq!(entry.name, "name");
        assert_eq!(entry.is_dir, entry.path.len() % 2 == 0);
    }
}

#[test]
fn sorting_keeps_every_entry() {
    let listing = vec![
        Entry::new("b", "x", false),
        Entry::new("a", "y", true),
        Entry::new("b", "x", false),
        Entry::new("a", "w", true),
    ];
    let sorted = sort_entries(listing);
    let seen: Vec<(&str, &str)> =
        sorted.iter().map(|e| (e.path.as_str(), e.name.as_str())).collect();
    assert_eq!(seen, [("a", "w"), ("a", "y"), ("b", "x"), ("b", "x")]);
    assert!(sort_entries(Vec::new()).is_empty());
}

#[test]
fn sorting_does_not_depend_on_the_arrangement() {
    let make = |order: &[usize]| -> Vec<Entry> {
        order.iter().map(|i| Entry::new(TEXTS[*i], TEXTS[13 - *i], *i % 3 == 0)).collect()
    };
    let expected = paths(&sort_entries(make(&[0, 1, 2, 3, 4, 5, 6, 7])));
    assert_eq!(paths(&sort_entries(make(&[7, 6, 5, 4, 3, 2, 1, 0]))), expected);
    assert_eq!(paths(&sort_entries(make(&[3, 0, 7, 1, 6, 2, 5, 4]))), expected);
}

#[test]
fn unreadable_items_are_passed_over() {
    let raw = vec![
        None,
        Some(Entry::new("d/b", "b", false)),
        None,
        None,
        Some(Entry::new("d/a", "a", true)),
    ];
    let kept = readable(raw);
    assert_eq!(paths(&kept), ["d/b", "d/a"]);
    assert!(kept[1].is_dir);
    assert!(readable(vec![None, None]).is_empty());
    assert!(readable(Vec::new()).is_empty());
}

#[test]
fn copy_of_an_entry_reads_the_same() {
    let entry = Entry::new("d/a", "a", true);
    let copy = entry.clone();
    assert_eq!((copy.path, copy.name, copy.is_dir), (entry.path, entry.name, entry.is_dir));
}
