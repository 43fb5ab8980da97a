use ascii_tree::entry::Entry;
use ascii_tree::render::render_tree;
use ascii_tree::snapshot::Snapshot;

#[test]
fn snapshot_holds_what_was_recorded() {
    let mut fs = Snapshot::new();
    assert!(fs.listing("d").is_none());
    fs.record("d", vec![Entry::new("d/a", "a", false)]);
    fs.record("e", vec![]);
    assert_eq!(fs.listing("d").unwrap().len(), 1);
    assert_eq!(fs.listing("d").unwrap()[0].name, "a");
    assert!(fs.listing("e").unwrap().is_empty());
    assert!(fs.listing("d/a").is_none());
    assert!(fs.listing("").is_none());
}

#[test]
fn later_record_replaces_the_earlier_one() {
    let mut fs = Snapshot::new();
    fs.record("d", vec![Entry::new("d/a", "a", false)]);
    fs.record("d", vec![Entry::new("d/b", "b", false), Entry::new("d/c", "c", false)]);
    assert_eq!(fs.listing("d").unwrap().len(), 2);
    assert_eq!(render_tree(&fs, "d", 1).unwrap(), "d\n├── b\n└── c\n");
}

#[test]
fn listing_is_kept_as_it_came_in() {
    let mut fs = Snapshot::new();
    fs.record("d", vec![Entry::new("d/z", "z", false), Entry::new("d/a", "a", false)]);
    let names: Vec<&str> = fs.listing("d").unwrap().iter().map(|e| e.name.as_str()).collect();
    assert_eq!(names, ["z", "a"]);
}
