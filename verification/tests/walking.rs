use ascii_tree::entry::{readable, Entry};
use ascii_tree::render::render_tree;
use ascii_tree::snapshot::Snapshot;
use ascii_tree::walk::Walk;

fn listing_of(dir: &str) -> Option<Vec<Entry>> {
    match dir {
        "R" => Some(vec![
            Entry::new("R/z.txt", "z.txt", false),
            Entry::new("R/lib", "lib", true),
            Entry::new("R/bin", "bin", true),
        ]),
        "R/bin" => Some(vec![Entry::new("R/bin/tool", "tool", false)]),
        "R/lib" => Some(vec![
            Entry::new("R/lib/deep", "deep", true),
            Entry::new("R/lib/a.rs", "a.rs", false),
        ]),
        "R/lib/deep" => Some(vec![Entry::new("R/lib/deep/leaf", "leaf", false)]),
        _ => None,
    }
}

fn walk_through(root: &str, max_depth: usize) -> Result<String, String> {
    let mut walk = Walk::start(root, max_depth);
    let mut asked = 0;
    while let Some(dir) = walk.wanted() {
        asked += 1;
        assert!(asked < 100);
        match listing_of(&dir) {
            Some(entries) => walk.supply(entries),
            None => walk.refuse(),
        }
    }
    walk.finish().map_err(|failure| failure.path)
}

#[test]
fn walk_renders_nested_directories() {
    let text = walk_through("R", 10).unwrap();
    assert_eq!(
        text,
        "R\n\
         ├── bin\n\
         │   └── tool\n\
         ├── lib\n\
         │   ├── a.rs\n\
         │   └── deep\n\
         │       └── leaf\n\
         └── z.txt\n"
    );
}

#[test]
fn walk_agrees_with_snapshot_rendering() {
    let mut fs = Snapshot::new();
    for dir in ["R", "R/bin", "R/lib", "R/lib/deep"] {
        fs.record(dir, listing_of(dir).unwrap());
    }
    for max_depth in 0..4 {
        assert_eq!(
            walk_through("R", max_depth).unwrap(),
            render_tree(&fs, "R", max_depth).unwrap()
        );
    }
}

#[test]
fn walk_stops_listing_below_the_limit() {
    let text = walk_through("R", 1).unwrap();
    assert_eq!(
        text,
        "R\n\
         ├── bin\n\
         │   └── tool\n\
         ├── lib\n\
         │   ├── a.rs\n\
         │   └── deep\n\
         │       [     *** Truncated. Use --depth to specify a larger depth]\n\
         └── z.txt\n"
    );
}

#[test]
fn walk_ends_at_unreadable_root() {
    assert_eq!(walk_through("nowhere", 10), Err("nowhere".to_string()));
}

#[test]
fn walk_asks_for_the_directories_in_rendered_order() {
    let mut walk = Walk::start("R", 10);
    let mut asked = Vec::new();
    while let Some(dir) = walk.wanted() {
        asked.push(dir.clone());
        walk.supply(listing_of(&dir).unwrap());
    }
    assert_eq!(asked, ["R", "R/bin", "R/lib", "R/lib/deep"]);
}

#[test]
fn walk_does_not_ask_for_directories_beyond_the_limit() {
    let mut walk = Walk::start("R", 0);
    assert_eq!(walk.wanted().as_deref(), Some("R"));
    walk.supply(listing_of("R").unwrap());
    assert_eq!(walk.wanted(), None);
    assert_eq!(
        walk.finish().unwrap(),
        "R\n\
         ├── bin\n\
         │   [     *** Truncated. Use --depth to specify a larger depth]\n\
         ├── lib\n\
         │   [     *** Truncated. Use --depth to specify a larger depth]\n\
         └── z.txt\n"
    );
}

#[test]
fn walk_ends_at_the_first_refusal() {
    let mut walk = Walk::start("R", 10);
    walk.supply(listing_of("R").unwrap());
    assert_eq!(walk.wanted().as_deref(), Some("R/bin"));
    walk.refuse();
    assert_eq!(walk.wanted(), None);
    assert_eq!(walk.finish().unwrap_err().path, "R/bin");
}

#[test]
fn walk_that_is_left_early_hands_out_no_text() {
    let mut walk = Walk::start("R", 10);
    walk.supply(listing_of("R").unwrap());
    walk.supply(listing_of("R/bin").unwrap());
    assert_eq!(walk.finish().unwrap_err().path, "R/lib");
    assert_eq!(Walk::start("R", 10).finish().unwrap_err().path, "R");
}

#[test]
fn walk_that_has_ended_stays_as_it_is() {
    let mut walk = Walk::start("R", 0);
    walk.supply(vec![Entry::new("R/f", "f", false)]);
    walk.supply(vec![Entry::new("R/g", "g", false)]);
    walk.refuse();
    assert_eq!(walk.finish().unwrap(), "R\n└── f\n");

    let mut failed = Walk::start("R", 0);
    failed.refuse();
    failed.supply(vec![Entry::new("R/g", "g", false)]);
    failed.refuse();
    assert_eq!(failed.finish().unwrap_err().path, "R");
}

#[test]
fn walk_takes_a_listing_in_any_arrangement() {
    let mut forwards = Walk::start("R", 0);
    forwards.supply(listing_of("R").unwrap());
    let mut backwards = Walk::start("R", 0);
    let mut listing = listing_of("R").unwrap();
    listing.reverse();
    backwards.supply(listing);
    assert_eq!(forwards.finish().unwrap(), backwards.finish().unwrap());
}

#[test]
fn walk_renders_what_could_be_read_of_a_listing() {
    let mut walk = Walk::start("R", 10);
    let raw = vec![
        Some(Entry::new("R/b", "b", false)),
        None,
        Some(Entry::new("R/a", "a", false)),
        None,
    ];
    walk.supply(readable(raw));
    assert_eq!(walk.wanted(), None);
    assert_eq!(walk.finish().unwrap(), "R\n├── a\n└── b\n");
}

#[test]
fn walk_through_an_empty_root() {
    let mut walk = Walk::start(".", 10);
    assert_eq!(walk.wanted().as_deref(), Some("."));
    walk.supply(Vec::new());
    assert_eq!(walk.wanted(), None);
    assert_eq!(walk.finish().unwrap(), ".\n");
}
