use urchinfs::catalog::{Catalog, Item};
use urchinfs::constraint::{matching_items, ConstraintSet};
use urchinfs::facets::remaining_categories;
use urchinfs::fs::{FacetFs, FsError};

fn item(name: &str, dest: &str, size: u64, tags: &[(&str, &[&str])]) -> Item {
    Item {
        name: name.to_string(),
        destination: dest.to_string(),
        size,
        tags: tags
            .iter()
            .map(|(c, vs)| {
                (c.to_string(), vs.iter().map(|v| v.to_string()).collect::<Vec<String>>())
            })
            .collect(),
    }
}

/// The catalog of the walk-through scenario: under `year/1948` the two
/// 1948 films are told apart by `color` alone, and the 1938 film keeps
/// `year` itself discriminating at the root.
fn films() -> Catalog {
    let items = vec![
        item("A", "/data/A", 13, &[("year", &["1948"]), ("color", &["color"])]),
        item("B", "/data/B", 17, &[("year", &["1948"]), ("color", &["bw"])]),
        item("C", "/data/C", 5, &[("year", &["1938"]), ("color", &["bw"])]),
    ];
    Catalog::load(items).unwrap()
}

fn s(x: &str) -> String {
    x.to_string()
}

#[test]
fn load_accepts_well_formed_items() {
    let cat = films();
    assert_eq!(cat.items.len(), 3);
}

#[test]
fn load_rejects_missing_name() {
    let items = vec![item("", "/data/A", 1, &[("year", &["1948"])])];
    let e = Catalog::load(items).err().unwrap();
    assert_eq!(e.item, 0);
}

#[test]
fn load_rejects_missing_destination() {
    let items = vec![
        item("A", "/data/A", 1, &[("year", &["1948"])]),
        item("B", "", 1, &[("year", &["1948"])]),
    ];
    let e = Catalog::load(items).err().unwrap();
    assert_eq!(e.item, 1);
}

#[test]
fn load_rejects_empty_facet_map() {
    let items = vec![item("A", "/data/A", 1, &[])];
    assert!(Catalog::load(items).is_err());
}

#[test]
fn load_rejects_empty_value_set() {
    let items = vec![item("A", "/data/A", 1, &[("year", &[])])];
    assert!(Catalog::load(items).is_err());
}

#[test]
fn load_rejects_repeated_category() {
    let items = vec![item("A", "/data/A", 1, &[("year", &["1948"]), ("year", &["1950"])])];
    assert!(Catalog::load(items).is_err());
}

#[test]
fn matching_is_intersection_of_single_constraints() {
    let cat = films();
    let both = ConstraintSet {
        pairs: vec![(s("year"), s("1948")), (s("color"), s("bw"))],
    };
    let year_only = ConstraintSet { pairs: vec![(s("year"), s("1948"))] };
    let color_only = ConstraintSet { pairs: vec![(s("color"), s("bw"))] };
    let empty = ConstraintSet { pairs: vec![] };
    assert_eq!(matching_items(&cat, &empty), vec![0, 1, 2]);
    assert_eq!(matching_items(&cat, &year_only), vec![0, 1]);
    assert_eq!(matching_items(&cat, &color_only), vec![1, 2]);
    // the conjunction matches exactly the intersection of the singles
    assert_eq!(matching_items(&cat, &both), vec![1]);
}

#[test]
fn degenerate_category_is_not_offered() {
    // every item carries format=dvd, so "format" never discriminates
    let items = vec![
        item("A", "/data/A", 1, &[("year", &["1948"]), ("format", &["dvd"])]),
        item("B", "/data/B", 1, &[("year", &["1950"]), ("format", &["dvd"])]),
    ];
    let cat = Catalog::load(items).unwrap();
    let empty = ConstraintSet { pairs: vec![] };
    let m = matching_items(&cat, &empty);
    let rem = remaining_categories(&cat, &empty, &m);
    assert_eq!(rem, vec![s("year")]);
}

#[test]
fn shared_single_value_category_not_listed() {
    // both items carry year=1948 only, so the year level would be a
    // no-op branch; the root exposes color alone
    let items = vec![
        item("A", "/data/A", 13, &[("year", &["1948"]), ("color", &["color"])]),
        item("B", "/data/B", 17, &[("year", &["1948"]), ("color", &["bw"])]),
    ];
    let mut fs = FacetFs::new(Catalog::load(items).unwrap());
    let rows = fs.readdir(1, 0).unwrap();
    let names: Vec<String> = rows.iter().map(|r| r.name.clone()).collect();
    assert_eq!(names, vec![s("."), s(".."), s("color")]);
}

#[test]
fn root_listing_exposes_categories_in_order() {
    let mut fs = FacetFs::new(films());
    let rows = fs.readdir(1, 0).unwrap();
    let names: Vec<String> = rows.iter().map(|r| r.name.clone()).collect();
    assert_eq!(names, vec![s("."), s(".."), s("color"), s("year")]);
    assert!(rows.iter().all(|r| r.is_dir));
    assert_eq!(rows[0].ino, 1);
    assert_eq!(rows[1].ino, 1);
}

#[test]
fn narrowing_to_file_scenario() {
    let mut fs = FacetFs::new(films());
    // year -> 1948 still leaves color undetermined
    let year = fs.lookup(1, &s("year")).unwrap();
    assert!(year.is_dir);
    let y1948 = fs.lookup(year.ino, &s("1948")).unwrap();
    assert!(y1948.is_dir);
    let rows = fs.readdir(y1948.ino, 0).unwrap();
    let names: Vec<String> = rows.iter().map(|r| r.name.clone()).collect();
    assert_eq!(names, vec![s("."), s(".."), s("color")]);
    // color under year/1948 still offers both values
    let color = fs.lookup(y1948.ino, &s("color")).unwrap();
    let rows = fs.readdir(color.ino, 0).unwrap();
    let names: Vec<String> = rows.iter().map(|r| r.name.clone()).collect();
    assert_eq!(names, vec![s("."), s(".."), s("bw"), s("color")]);
    // selecting bw narrows to item B: a file
    let bw = fs.lookup(color.ino, &s("bw")).unwrap();
    assert!(!bw.is_dir);
    assert_eq!(bw.size, 17);
    // reading the whole file covers B's backing content in full
    let plan = fs.read_plan(bw.ino, 0, 1000).unwrap();
    assert_eq!(plan.destination, s("/data/B"));
    assert_eq!(plan.offset, 0);
    assert_eq!(plan.len, 17);
}

#[test]
fn empty_narrowing_is_not_found() {
    let mut fs = FacetFs::new(films());
    let year = fs.lookup(1, &s("year")).unwrap();
    // no item carries year=1999: NotFound at the value step, not an
    // empty directory
    assert_eq!(fs.lookup(year.ino, &s("1999")), Err(FsError::NotFound));
}

#[test]
fn unknown_segment_is_not_found() {
    let mut fs = FacetFs::new(films());
    assert_eq!(fs.lookup(1, &s("director")), Err(FsError::NotFound));
    assert_eq!(fs.lookup(99, &s("year")), Err(FsError::NotFound));
}

#[test]
fn repeated_lookup_returns_same_identifier() {
    let mut fs = FacetFs::new(films());
    // two callers racing to the same path are serialized by the
    // allocator; back to back they get one identifier
    let first = fs.lookup(1, &s("year")).unwrap();
    let second = fs.lookup(1, &s("year")).unwrap();
    assert_eq!(first.ino, second.ino);
    let a = fs.lookup(first.ino, &s("1948")).unwrap();
    let b = fs.lookup(second.ino, &s("1948")).unwrap();
    assert_eq!(a.ino, b.ino);
}

#[test]
fn distinct_nodes_get_distinct_identifiers() {
    let mut fs = FacetFs::new(films());
    let year = fs.lookup(1, &s("year")).unwrap();
    let color = fs.lookup(1, &s("color")).unwrap();
    assert_ne!(year.ino, color.ino);
    assert_ne!(year.ino, 1);
    assert_ne!(color.ino, 1);
}

#[test]
fn listing_twice_is_identical() {
    let mut fs = FacetFs::new(films());
    let once = fs.readdir(1, 0).unwrap();
    let twice = fs.readdir(1, 0).unwrap();
    assert_eq!(once.len(), twice.len());
    for (a, b) in once.iter().zip(twice.iter()) {
        assert_eq!(a.ino, b.ino);
        assert_eq!(a.name, b.name);
        assert_eq!(a.is_dir, b.is_dir);
    }
}

#[test]
fn listing_restarts_from_offset() {
    let mut fs = FacetFs::new(films());
    let all = fs.readdir(1, 0).unwrap();
    let tail = fs.readdir(1, 2).unwrap();
    assert_eq!(tail.len(), all.len() - 2);
    for (a, b) in all[2..].iter().zip(tail.iter()) {
        assert_eq!(a.ino, b.ino);
        assert_eq!(a.name, b.name);
    }
    let past_end = fs.readdir(1, 100).unwrap();
    assert!(past_end.is_empty());
}

#[test]
fn getattr_serves_known_identifiers_only() {
    let mut fs = FacetFs::new(films());
    let root = fs.getattr(1).unwrap();
    assert!(root.is_dir);
    assert_eq!(root.ino, 1);
    assert_eq!(root.size, 0);
    assert_eq!(fs.getattr(2), Err(FsError::NotFound));
    let year = fs.lookup(1, &s("year")).unwrap();
    let again = fs.getattr(year.ino).unwrap();
    assert_eq!(again.ino, year.ino);
    assert!(again.is_dir);
}

#[test]
fn dot_and_dotdot_resolve() {
    let mut fs = FacetFs::new(films());
    let dot = fs.lookup(1, &s(".")).unwrap();
    assert_eq!(dot.ino, 1);
    // the root's parent is the root itself
    let dotdot = fs.lookup(1, &s("..")).unwrap();
    assert_eq!(dotdot.ino, 1);
    let year = fs.lookup(1, &s("year")).unwrap();
    let back = fs.lookup(year.ino, &s("..")).unwrap();
    assert_eq!(back.ino, 1);
}

#[test]
fn read_plan_clamps_the_range() {
    let mut fs = FacetFs::new(films());
    let year = fs.lookup(1, &s("year")).unwrap();
    let y = fs.lookup(year.ino, &s("1948")).unwrap();
    let color = fs.lookup(y.ino, &s("color")).unwrap();
    let bw = fs.lookup(color.ino, &s("bw")).unwrap();
    let mid = fs.read_plan(bw.ino, 10, 100).unwrap();
    assert_eq!((mid.offset, mid.len), (10, 7));
    let past = fs.read_plan(bw.ino, 40, 4).unwrap();
    assert_eq!((past.offset, past.len), (17, 0));
    let short = fs.read_plan(bw.ino, 0, 4).unwrap();
    assert_eq!((short.offset, short.len), (0, 4));
    // directories and unknown identifiers are not readable
    assert!(fs.read_plan(1, 0, 4).is_err());
    assert!(fs.read_plan(999, 0, 4).is_err());
}

#[test]
fn fully_determined_directory_lists_its_item() {
    // a single-item catalog: nothing discriminates, so the root lists
    // the item itself as a file, by display name
    let items = vec![item("only", "/data/only", 5, &[("year", &["1948"])])];
    let mut fs = FacetFs::new(Catalog::load(items).unwrap());
    let rows = fs.readdir(1, 0).unwrap();
    let names: Vec<String> = rows.iter().map(|r| r.name.clone()).collect();
    assert_eq!(names, vec![s("."), s(".."), s("only")]);
    assert!(!rows[2].is_dir);
    let f = fs.lookup(1, &s("only")).unwrap();
    assert!(!f.is_dir);
    assert_eq!(f.size, 5);
    assert_eq!(f.ino, rows[2].ino);
}

#[test]
fn twin_items_both_listed() {
    // two items with identical tags cannot be told apart by any facet;
    // both appear as files of the fully determined directory
    let items = vec![
        item("left", "/data/left", 1, &[("year", &["1948"])]),
        item("right", "/data/right", 2, &[("year", &["1948"])]),
    ];
    let mut fs = FacetFs::new(Catalog::load(items).unwrap());
    let rows = fs.readdir(1, 0).unwrap();
    let names: Vec<String> = rows.iter().map(|r| r.name.clone()).collect();
    assert_eq!(names, vec![s("."), s(".."), s("left"), s("right")]);
    assert_ne!(rows[2].ino, rows[3].ino);
}

#[test]
fn multi_valued_tags_reachable_through_either_value() {
    let items = vec![
        item("dual", "/data/dual", 3, &[("genre", &["noir", "drama"])]),
        item("plain", "/data/plain", 4, &[("genre", &["drama"])]),
    ];
    let mut fs = FacetFs::new(Catalog::load(items).unwrap());
    let genre = fs.lookup(1, &s("genre")).unwrap();
    let rows = fs.readdir(genre.ino, 0).unwrap();
    let names: Vec<String> = rows.iter().map(|r| r.name.clone()).collect();
    assert_eq!(names, vec![s("."), s(".."), s("drama"), s("noir")]);
    // noir narrows to the dual-tagged item alone
    let noir = fs.lookup(genre.ino, &s("noir")).unwrap();
    assert!(!noir.is_dir);
    assert_eq!(noir.size, 3);
}
