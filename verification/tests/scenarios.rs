use du::du::st::Source;
use du::du::{Always, Du, DuSource, FileKind, NodeId, Probe, Stats};
use du::util::{FsError, FsErrorKind, Listing, ModelFs, RawItem};

fn item(name: &str, kind: FileKind, size: u64, path: &str) -> Result<RawItem, FsError> {
    Ok(RawItem {
        name: Some(name.to_string()),
        kind,
        size,
        path: path.to_string(),
    })
}

fn child_named(stats: &Stats, parent: &du::du::Node, name: &str) -> Option<NodeId> {
    for c in parent.children.iter() {
        if stats.node(*c).info.name == name {
            return Some(*c);
        }
    }
    None
}

#[test]
fn two_files_one_subdir_aggregates() {
    let mut fs = ModelFs::new();
    fs.add(
        "root".to_string(),
        Listing::Items(vec![
            item("a.txt", FileKind::File, 10, "root/a.txt"),
            item("sub", FileKind::Dir, 0, "root/sub"),
        ]),
    );
    fs.add(
        "root/sub".to_string(),
        Listing::Items(vec![item("b.txt", FileKind::File, 5, "root/sub/b.txt")]),
    );
    let mut d = Du::new(Source::new(fs));
    d.begin("root".to_string());
    let count = d.read(&mut Always);
    assert_eq!(count, 3);

    let head = d.stats().head();
    assert_eq!(head.info.size, 15);
    assert_eq!(head.info.files, 2);
    assert_eq!(head.info.dirs, 2);
    assert_eq!(head.info.other, 0);

    let sub = child_named(d.stats(), d.stats().head(), "sub").expect("sub node");
    let sub_node = d.stats().node(sub);
    assert_eq!(sub_node.info.size, 5);
    assert_eq!(sub_node.info.files, 1);
    assert_eq!(sub_node.info.dirs, 1);
    assert_eq!(sub_node.info.other, 0);

    assert!(d.source.errors().is_empty());
}

#[test]
fn empty_root_counts_only_itself() {
    let mut fs = ModelFs::new();
    fs.add("root".to_string(), Listing::Items(vec![]));
    let mut d = Du::new(Source::new(fs));
    d.begin("root".to_string());
    let count = d.read(&mut Always);
    assert_eq!(count, 0);

    let head = d.stats().head();
    assert_eq!(head.info.size, 0);
    assert_eq!(head.info.files, 0);
    assert_eq!(head.info.dirs, 1);
    assert_eq!(head.info.other, 0);
    assert!(d.source.errors().is_empty());
}

#[test]
fn locked_subdir_still_counted_with_one_error() {
    let mut fs = ModelFs::new();
    fs.add(
        "root".to_string(),
        Listing::Items(vec![item("locked", FileKind::Dir, 0, "root/locked")]),
    );
    fs.add(
        "root/locked".to_string(),
        Listing::Failed(FsError::new(
            FsErrorKind::PermissionDenied,
            "root/locked".to_string(),
        )),
    );
    let mut d = Du::new(Source::new(fs));
    d.begin("root".to_string());
    d.read(&mut Always);

    let head = d.stats().head();
    assert_eq!(head.info.size, 0);
    assert_eq!(head.info.files, 0);
    assert_eq!(head.info.dirs, 2);
    assert_eq!(head.info.other, 0);

    let errors = d.source.errors();
    assert_eq!(errors.len(), 1);
    assert_eq!(errors[0].kind, FsErrorKind::PermissionDenied);
    assert_eq!(errors[0].path, "root/locked");
}

#[test]
fn unreadable_sibling_does_not_block_readable_ones() {
    let mut fs = ModelFs::new();
    fs.add(
        "root".to_string(),
        Listing::Items(vec![
            item("a.txt", FileKind::File, 3, "root/a.txt"),
            item("bad", FileKind::Dir, 0, "root/bad"),
            item("good", FileKind::Dir, 0, "root/good"),
        ]),
    );
    fs.add(
        "root/bad".to_string(),
        Listing::Failed(FsError::new(
            FsErrorKind::PermissionDenied,
            "root/bad".to_string(),
        )),
    );
    fs.add(
        "root/good".to_string(),
        Listing::Items(vec![item("c.txt", FileKind::File, 7, "root/good/c.txt")]),
    );
    let mut d = Du::new(Source::new(fs));
    d.begin("root".to_string());
    d.read(&mut Always);

    let head = d.stats().head();
    assert_eq!(head.info.size, 10);
    assert_eq!(head.info.files, 2);
    assert_eq!(head.info.dirs, 3);
    assert_eq!(head.info.other, 0);

    let good = child_named(d.stats(), d.stats().head(), "good").expect("good node");
    assert_eq!(d.stats().node(good).info.size, 7);
    assert_eq!(d.stats().node(good).info.files, 1);

    assert_eq!(d.source.errors().len(), 1);
    assert_eq!(d.source.errors()[0].kind, FsErrorKind::PermissionDenied);
}

fn shaped_fixture(first: bool) -> ModelFs {
    let mut fs = ModelFs::new();
    let mut items = vec![
        item("a.txt", FileKind::File, 11, "root/a.txt"),
        item("sub", FileKind::Dir, 0, "root/sub"),
        item("dev", FileKind::Other, 2, "root/dev"),
    ];
    if !first {
        items.reverse();
    }
    fs.add("root".to_string(), Listing::Items(items));
    let mut sub_items = vec![
        item("b.txt", FileKind::File, 4, "root/sub/b.txt"),
        item("c.txt", FileKind::File, 6, "root/sub/c.txt"),
    ];
    if !first {
        sub_items.reverse();
    }
    fs.add("root/sub".to_string(), Listing::Items(sub_items));
    fs
}

#[test]
fn enumeration_order_does_not_change_aggregates() {
    let mut one = Du::new(Source::new(shaped_fixture(true)));
    one.begin("root".to_string());
    one.read(&mut Always);
    let mut two = Du::new(Source::new(shaped_fixture(false)));
    two.begin("root".to_string());
    two.read(&mut Always);

    for d in [&one, &two] {
        let head = d.stats().head();
        assert_eq!(head.info.size, 23);
        assert_eq!(head.info.files, 3);
        assert_eq!(head.info.dirs, 2);
        assert_eq!(head.info.other, 1);
        let sub = child_named(d.stats(), d.stats().head(), "sub").expect("sub node");
        let sub_node = d.stats().node(sub);
        assert_eq!(sub_node.info.size, 10);
        assert_eq!(sub_node.info.files, 2);
        assert_eq!(sub_node.info.dirs, 1);
        assert_eq!(sub_node.info.other, 0);
        assert!(d.source.errors().is_empty());
    }
}

#[test]
fn missing_subdir_listing_reports_open_failure() {
    let mut fs = ModelFs::new();
    fs.add(
        "root".to_string(),
        Listing::Items(vec![item("sub", FileKind::Dir, 0, "root/sub")]),
    );
    let mut d = Du::new(Source::new(fs));
    d.begin("root".to_string());
    d.read(&mut Always);

    assert_eq!(d.stats().head().info.dirs, 2);
    assert_eq!(d.source.errors().len(), 1);
    assert_eq!(d.source.errors()[0].kind, FsErrorKind::NotFound);
}

/// Allows a fixed number of entries through, then refuses.
struct Budget(usize);

impl<P: DuSource> Probe<P> for Budget {
    fn check(&mut self, _stats: &Stats, _source: &P) -> bool {
        if self.0 == 0 {
            false
        } else {
            self.0 -= 1;
            true
        }
    }
}

#[test]
fn interrupted_read_resumes_where_it_stopped() {
    let mut fs = ModelFs::new();
    let items: Vec<_> = (0..10)
        .map(|i| {
            item(
                &format!("f{i}.txt"),
                FileKind::File,
                1,
                &format!("root/f{i}.txt"),
            )
        })
        .collect();
    fs.add("root".to_string(), Listing::Items(items));
    let mut d = Du::new(Source::new(fs));
    d.begin("root".to_string());

    let first = d.read(&mut Budget(3));
    assert_eq!(first, 3);
    assert_eq!(d.stats().head().info.files, 3);

    // The entry pulled at the refusal was discarded, not put back;
    // the rest is still buffered and a later read drains it.
    let rest = d.read(&mut Always);
    assert_eq!(rest, 6);
    assert_eq!(d.stats().head().info.files, 9);
    assert_eq!(d.stats().len(), 10);
}

#[test]
fn exhausted_budget_stops_before_anything_is_applied() {
    let mut fs = ModelFs::new();
    fs.add(
        "root".to_string(),
        Listing::Items(vec![
            item("a.txt", FileKind::File, 4, "root/a.txt"),
            item("b.txt", FileKind::File, 8, "root/b.txt"),
        ]),
    );
    let mut d = Du::new(Source::new(fs));
    d.begin("root".to_string());

    let (count, _elapsed) = d.read_for(0);
    assert_eq!(count, 0);
    assert_eq!(d.stats().head().info.files, 0);

    // The budget check happens after an entry is pulled, so the entry
    // in hand at the refusal is discarded; the other is still buffered.
    let rest = d.read(&mut Always);
    assert_eq!(rest, 1);
    assert_eq!(d.stats().head().info.files, 1);
    assert_eq!(d.stats().head().info.size, 4);
}

#[test]
fn overflowing_entry_stops_the_drain_and_is_recorded() {
    let mut fs = ModelFs::new();
    fs.add(
        "root".to_string(),
        Listing::Items(vec![
            item("huge.bin", FileKind::File, u64::MAX, "root/huge.bin"),
            item("a.txt", FileKind::File, 1, "root/a.txt"),
        ]),
    );
    let mut d = Du::new(Source::new(fs));
    assert!(!d.overflowed);
    d.begin("root".to_string());

    // The buffer is drained most-recent-first: a.txt is applied, then
    // huge.bin no longer fits the root's size counter, so the drain
    // stops and records that it did.
    let count = d.read(&mut Always);
    assert_eq!(count, 1);
    assert!(d.overflowed);
    assert_eq!(d.stats().head().info.size, 1);
    assert_eq!(d.stats().head().info.files, 1);
}

#[test]
fn read_for_applies_everything_within_budget() {
    let mut fs = ModelFs::new();
    fs.add(
        "root".to_string(),
        Listing::Items(vec![
            item("a.txt", FileKind::File, 1, "root/a.txt"),
            item("b.txt", FileKind::File, 2, "root/b.txt"),
        ]),
    );
    let mut d = Du::new(Source::new(fs));
    d.begin("root".to_string());
    let (count, _elapsed) = d.read_for(10_000);
    assert_eq!(count, 2);
    assert_eq!(d.stats().head().info.size, 3);
}
