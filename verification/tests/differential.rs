use std::collections::BTreeMap;

use ascii_tree::agreement::render_by_walk;
use ascii_tree::entry::Entry;
use ascii_tree::render::{generate_tree, render_tree};
use ascii_tree::snapshot::Snapshot;

/// A small generator of numbers that look arbitrary and are the same in
/// every run.
struct Numbers(u64);

impl Numbers {
    fn below(&mut self, bound: u64) -> u64 {
        self.0 = self.0.wrapping_mul(6364136223846793005).wrapping_add(1442695040888963407);
        (self.0 >> 33) % bound
    }
}

const NAMES: [&str; 12] =
    ["a", "b", "B", "a.b", "a-b", "10", "9", "src", "é", "x y", "zz", "_"];

/// The listings of a tree that grows at random, by directory, each in the
/// order in which it grew. Some directories get no listing.
fn grow(numbers: &mut Numbers) -> BTreeMap<String, Vec<(String, String, bool)>> {
    let mut listings = BTreeMap::new();
    let mut open = vec![(String::from("root"), 0)];
    while let Some((dir, depth)) = open.pop() {
        let mut names: Vec<&str> = Vec::new();
        for _ in 0..numbers.below(5) {
            let name = NAMES[numbers.below(12) as usize];
            if !names.contains(&name) {
                names.push(name);
            }
        }
        let mut listing = Vec::new();
        for name in names {
            let path = format!("{}/{}", dir, name);
            let is_dir = numbers.below(2) == 0;
            if is_dir && depth < 4 && numbers.below(8) != 0 {
                open.push((path.clone(), depth + 1));
            }
            listing.push((path, name.to_string(), is_dir));
        }
        listings.insert(dir, listing);
    }
    listings
}

/// The rendering written out the plain way.
fn plainly(
    listings: &BTreeMap<String, Vec<(String, String, bool)>>,
    dir: &str,
    prefix: &str,
    depth: usize,
    max_depth: usize,
) -> Result<String, String> {
    if depth > max_depth {
        return Ok(format!(
            "{}[     *** Truncated. Use --depth to specify a larger depth]\n",
            prefix
        ));
    }
    let mut entries = listings.get(dir).ok_or(dir.to_string())?.clone();
    entries.sort();
    let mut output = String::new();
    for (count, (path, name, is_dir)) in entries.iter().enumerate() {
        let (connector, unit) =
            if count == entries.len() - 1 { ("└── ", "    ") } else { ("├── ", "│   ") };
        output.push_str(&format!("{}{}{}\n", prefix, connector, name));
        if *is_dir {
            let below = format!("{}{}", prefix, unit);
            output.push_str(&plainly(listings, path, &below, depth + 1, max_depth)?);
        }
    }
    Ok(output)
}

fn snapshot_of(listings: &BTreeMap<String, Vec<(String, String, bool)>>) -> Snapshot {
    let mut fs = Snapshot::new();
    for (dir, listing) in listings {
        let entries =
            listing.iter().map(|(path, name, is_dir)| Entry::new(path, name, *is_dir)).collect();
        fs.record(dir, entries);
    }
    fs
}

#[test]
fn trees_grown_at_random_are_rendered_as_the_plain_way_renders_them() {
    let mut numbers = Numbers(2024);
    let mut failures = 0;
    for _ in 0..200 {
        let listings = grow(&mut numbers);
        let fs = snapshot_of(&listings);
        for max_depth in 0..6 {
            let expected = plainly(&listings, "root", "", 0, max_depth);
            let below = generate_tree(&fs, "root", "", 0, max_depth).map_err(|f| f.path);
            assert_eq!(below, expected);
            let whole = expected.map(|text| format!("root\n{}", text));
            assert_eq!(render_tree(&fs, "root", max_depth).map_err(|f| f.path), whole);
            assert_eq!(render_by_walk(&fs, "root", max_depth).map_err(|f| f.path), whole);
            if whole.is_err() {
                failures += 1;
            }
        }
    }
    assert!(failures > 0);
}
