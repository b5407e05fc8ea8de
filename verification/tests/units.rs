use du::du::mt::{collect_entry, worker_action, WorkerAction};
use du::du::st::Source;
use du::du::{Entry, FileKind, Info, NodeId, Stats};
use du::util::{build_entry, Adapter, FsError, FsErrorKind, Listing, ModelFs, RawItem};

#[test]
fn node_ids_round_trip() {
    assert_eq!(NodeId::new(5).get(), 5);
    assert_eq!(NodeId::root().get(), 0);
    assert_eq!(NodeId::new(0), NodeId::root());
    assert_ne!(NodeId::new(1), NodeId::root());
}

#[test]
fn classify_prefers_dir_then_file() {
    assert_eq!(FileKind::classify(true, false), FileKind::Dir);
    assert_eq!(FileKind::classify(true, true), FileKind::Dir);
    assert_eq!(FileKind::classify(false, true), FileKind::File);
    assert_eq!(FileKind::classify(false, false), FileKind::Other);
}

#[test]
fn info_seeds_exactly_one_counter() {
    let f = Info::new("a".to_string(), FileKind::File, 7);
    assert_eq!((f.files, f.dirs, f.other, f.size), (1, 0, 0, 7));
    let d = Info::new("b".to_string(), FileKind::Dir, 0);
    assert_eq!((d.files, d.dirs, d.other), (0, 1, 0));
    let o = Info::new("c".to_string(), FileKind::Other, 3);
    assert_eq!((o.files, o.dirs, o.other), (0, 0, 1));
    let default = Info::default();
    assert_eq!(default.kind, FileKind::Dir);
    assert_eq!(default.dirs, 1);
    assert_eq!(default.name, "");
}

#[test]
fn node_new_seeds_aggregate_with_own_contribution() {
    let n = du::du::Node::new(
        Info::new("x".to_string(), FileKind::File, 5),
        NodeId::new(3),
    );
    assert_eq!(n.info.size, 5);
    assert_eq!(n.info.files, 1);
    assert_eq!(n.parent, NodeId::new(3));
    assert!(n.children.is_empty());
}

#[test]
fn push_aggregates_every_ancestor() {
    let mut stats = Stats::new();
    let sub = stats.push(
        NodeId::root(),
        Info::new("sub".to_string(), FileKind::Dir, 0),
    );
    let leaf = stats.push(sub, Info::new("f".to_string(), FileKind::File, 42));

    let head = stats.head();
    assert_eq!(head.info.size, 42);
    assert_eq!(head.info.files, 1);
    assert_eq!(head.info.dirs, 2);
    assert_eq!(head.children, vec![sub]);

    let sub_node = stats.node(sub);
    assert_eq!(sub_node.info.size, 42);
    assert_eq!(sub_node.info.files, 1);
    assert_eq!(sub_node.info.dirs, 1);
    assert_eq!(sub_node.children, vec![leaf]);

    // parent links: the leaf's parent is sub, sub's parent the root,
    // and the root is its own parent.
    assert_eq!(stats.parent(leaf).info.name, "sub");
    assert_eq!(stats.parent(sub).info.name, "");
    assert_eq!(stats.parent(NodeId::root()).info.dirs, 2);
    assert_eq!(stats.len(), 3);
}

#[test]
fn build_entry_resolves_name_or_reports_structure() {
    let ok = build_entry(
        NodeId::root(),
        RawItem {
            name: Some("x".to_string()),
            kind: FileKind::File,
            size: 9,
            path: "p/x".to_string(),
        },
    );
    match ok {
        Ok(e) => {
            assert_eq!(e.parent, NodeId::root());
            assert_eq!(e.info.name, "x");
            assert_eq!(e.info.size, 9);
            assert_eq!(e.info.files, 1);
            assert_eq!(e.path, "p/x");
        }
        Err(_) => panic!("named item must build"),
    }

    let bad = build_entry(
        NodeId::new(2),
        RawItem {
            name: None,
            kind: FileKind::File,
            size: 9,
            path: "p/x".to_string(),
        },
    );
    match bad {
        Ok(_) => panic!("nameless item must fail"),
        Err(er) => {
            assert_eq!(er.kind, FsErrorKind::InvalidName);
            assert_eq!(er.path, "p/x");
        }
    }
}

#[test]
fn collect_entry_files_failures() {
    let mut errors: Vec<FsError> = Vec::new();
    let e = Entry::new(
        NodeId::root(),
        Info::new("a".to_string(), FileKind::File, 1),
        "root/a".to_string(),
    );
    let got = collect_entry(Ok(e), &mut errors);
    assert!(got.is_some());
    assert!(errors.is_empty());

    let got = collect_entry(
        Err(FsError::new(FsErrorKind::Io, "root/b".to_string())),
        &mut errors,
    );
    assert!(got.is_none());
    assert_eq!(errors.len(), 1);
    assert_eq!(errors[0].kind, FsErrorKind::Io);
}

#[test]
fn worker_decisions_follow_the_pool_discipline() {
    assert_eq!(worker_action(false, true, 3), WorkerAction::Exit);
    assert_eq!(worker_action(true, true, 0), WorkerAction::Work);
    assert_eq!(worker_action(true, false, 0), WorkerAction::Exit);
    assert_eq!(worker_action(true, false, 2), WorkerAction::Poll);
}

#[test]
fn absorb_listing_buffers_entries_and_errors_in_order() {
    let mut src = Source::new(ModelFs::new());
    src.absorb_listing(
        NodeId::root(),
        Listing::Items(vec![
            Ok(RawItem {
                name: Some("a".to_string()),
                kind: FileKind::File,
                size: 1,
                path: "r/a".to_string(),
            }),
            Err(FsError::new(FsErrorKind::Io, "r/b".to_string())),
            Ok(RawItem {
                name: None,
                kind: FileKind::Other,
                size: 0,
                path: "r/c".to_string(),
            }),
        ]),
    );
    assert_eq!(src.entries.len(), 1);
    assert_eq!(src.entries[0].info.name, "a");
    assert_eq!(src.errors.len(), 2);
    assert_eq!(src.errors[0].kind, FsErrorKind::Io);
    assert_eq!(src.errors[1].kind, FsErrorKind::InvalidName);

    src.absorb_listing(
        NodeId::root(),
        Listing::Failed(FsError::new(FsErrorKind::PermissionDenied, "r".to_string())),
    );
    assert_eq!(src.entries.len(), 1);
    assert_eq!(src.errors.len(), 3);
    assert_eq!(src.errors[2].kind, FsErrorKind::PermissionDenied);
}

#[test]
fn model_fs_consumes_listings_and_reports_missing_paths() {
    let mut fs = ModelFs::new();
    fs.add("r".to_string(), Listing::Items(vec![]));
    match fs.read_dir(&"r".to_string()) {
        Listing::Items(v) => assert!(v.is_empty()),
        Listing::Failed(_) => panic!("stored listing expected"),
    }
    match fs.read_dir(&"r".to_string()) {
        Listing::Failed(e) => assert_eq!(e.kind, FsErrorKind::NotFound),
        Listing::Items(_) => panic!("consumed listing must not reappear"),
    }
}
