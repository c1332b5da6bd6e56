use imfs::{
    copy_bytes, parent_and_name, Cache, CacheError, Entry, EntryKind, FileSystemItem, Listing,
    Timestamp,
};

const ROOT: &str = "/Users/synoet/dev/imfs";

fn dir(location: &str, name: &str, parent: &str) -> Entry {
    Entry {
        location: location.to_string(),
        name: name.to_string(),
        parent: parent.to_string(),
        kind: EntryKind::Directory,
    }
}

fn file(location: &str, name: &str, parent: &str, bytes: &[u8]) -> Entry {
    let stamp = Timestamp { secs: 1_700_000_000, nanos: 5 };
    Entry {
        location: location.to_string(),
        name: name.to_string(),
        parent: parent.to_string(),
        kind: EntryKind::File {
            created: stamp,
            modified: stamp,
            size: bytes.len() as u64,
            buffer: bytes.to_vec(),
        },
    }
}

fn project_listing() -> Listing {
    Listing::Found(vec![
        file("/Users/synoet/dev/imfs/Cargo.toml", "Cargo.toml", ROOT, b"[package]\n"),
        dir("/Users/synoet/dev/imfs/src", "src", ROOT),
        file(
            "/Users/synoet/dev/imfs/src/lib.rs",
            "lib.rs",
            "/Users/synoet/dev/imfs/src",
            b"mod htm;\n",
        ),
        file(
            "/Users/synoet/dev/imfs/src/htm.rs",
            "htm.rs",
            "/Users/synoet/dev/imfs/src",
            b"",
        ),
    ])
}

fn project() -> Cache {
    Cache::new(ROOT, project_listing()).unwrap()
}

#[test]
fn create_cache_with_non_existent_path() {
    let cache = Cache::new("non-existent-path", Listing::Missing);
    assert!(cache.is_err());
}

#[test]
fn create_cache_with_existent_path() {
    let cache = Cache::new("/Users/synoet/dev/imfs", project_listing());
    assert!(cache.is_ok());
}

#[test]
fn read() {
    let cache = Cache::new("/Users/synoet/dev/imfs", project_listing()).unwrap();
    let file = cache.read("/Users/synoet/dev/imfs/src/lib.rs").unwrap();
    assert!(matches!(file, FileSystemItem::File(_)));
}

#[test]
fn location_exists() {
    let cache = Cache::new("/Users/synoet/dev/imfs", project_listing()).unwrap();
    let file = cache.contains("/Users/synoet/dev/imfs/src/lib.rs");
    assert!(file);
    let file = cache.contains("/Users/synoet/dev/imfs/src/lib.rs/does-not-exist");
    assert!(!file);
}

#[test]
fn mkdir() {
    let mut cache = Cache::new("/Users/synoet/dev/imfs", project_listing()).unwrap();
    let result = cache.mkdir("/Users/synoet/dev/imfs/src/test");
    assert!(result.is_ok());
    let result = cache.mkdir("/Users/synoet/dev/imfs/src/test");
    assert!(result.is_err());
}

#[test]
fn write() {
    let mut cache = Cache::new("/Users/synoet/dev/imfs", project_listing()).unwrap();
    let result = cache.write("/Users/synoet/dev/imfs/src/test.txt", "test.txt", vec![1, 2, 3]);
    assert!(result.is_ok());
    let result = cache.write("/Users/synoet/dev/imfs/src/test.txt", "test.txt", vec![1, 2, 3]);
    assert!(result.is_err());

    let file = cache.read("/Users/synoet/dev/imfs/src/test.txt").unwrap();
    assert!(matches!(file, FileSystemItem::File(_)));
}

#[test]
fn rm() {
    let mut cache = Cache::new("/Users/synoet/dev/imfs", project_listing()).unwrap();
    let result = cache.rm("/Users/synoet/dev/imfs/src");
    assert!(result.is_ok());
    let dir = cache.read("/Users/synoet/dev/imfs/src");
    assert!(dir.is_err());
    let file = cache.read("/Users/synoet/dev/imfs/src/lib.rs");

    assert!(file.is_err());
}

#[test]
fn root_is_a_directory() {
    let cache = Cache::new("/data", Listing::Found(Vec::new())).unwrap();
    assert!(cache.contains("/data"));
    assert_eq!(cache.location(), "/data");
    match cache.read("/data").unwrap() {
        FileSystemItem::Directory(d) => {
            assert_eq!(d.location, "/data");
            assert_eq!(d.created, d.modified);
            assert!(d.created.secs > 0);
        }
        FileSystemItem::File(_) => panic!("root read as a file"),
    }
    assert_eq!(cache.is_dir("/data"), Ok(true));
}

#[test]
fn missing_root_names_the_root() {
    let err = Cache::new("/nowhere", Listing::Missing).err().unwrap();
    assert_eq!(
        err,
        CacheError::LocationDoesNotExistError { location: "/nowhere".to_string() }
    );
    assert_eq!(err.location(), "/nowhere");
}

#[test]
fn scan_failure_is_its_own_error() {
    let listing = Listing::Unreadable { location: "/data/locked".to_string() };
    let err = Cache::new("/data", listing).err().unwrap();
    assert_eq!(err, CacheError::ScanFailedError { location: "/data/locked".to_string() });
}

#[test]
fn every_scanned_entry_is_mirrored() {
    let cache = project();
    let expected: [(&str, Option<&[u8]>); 4] = [
        ("/Users/synoet/dev/imfs/Cargo.toml", Some(b"[package]\n")),
        ("/Users/synoet/dev/imfs/src", None),
        ("/Users/synoet/dev/imfs/src/lib.rs", Some(b"mod htm;\n")),
        ("/Users/synoet/dev/imfs/src/htm.rs", Some(b"")),
    ];
    for (location, content) in expected {
        assert!(cache.contains(location));
        match (cache.read(location).unwrap(), content) {
            (FileSystemItem::File(f), Some(bytes)) => {
                assert_eq!(f.size, bytes.len() as u64);
                assert_eq!(f.buffer, bytes.to_vec());
                assert_eq!(f.location, location);
                assert_eq!(f.created, Timestamp { secs: 1_700_000_000, nanos: 5 });
            }
            (FileSystemItem::Directory(d), None) => assert_eq!(d.location, location),
            _ => panic!("wrong kind at {}", location),
        }
    }
    assert_eq!(cache.is_dir("/Users/synoet/dev/imfs/src/lib.rs"), Ok(false));
}

#[test]
fn listing_with_unknown_parent_is_refused() {
    let listing = Listing::Found(vec![file("/data/x/y", "y", "/data/x", b"1")]);
    let err = Cache::new("/data", listing).err().unwrap();
    assert_eq!(err, CacheError::LocationDoesNotExistError { location: "/data/x".to_string() });
}

#[test]
fn listing_with_repeated_location_is_refused() {
    let listing = Listing::Found(vec![
        dir("/data/a", "a", "/data"),
        file("/data/a", "a", "/data", b"1"),
    ]);
    let err = Cache::new("/data", listing).err().unwrap();
    assert_eq!(err, CacheError::LocationAlreadyExistsError { location: "/data/a".to_string() });
}

#[test]
fn second_mkdir_is_refused_and_changes_nothing() {
    let mut cache = Cache::new("/r", Listing::Found(Vec::new())).unwrap();
    assert_eq!(cache.mkdir("/r/a"), Ok(()));
    assert_eq!(cache.is_dir("/r/a"), Ok(true));
    let before = cache.read("/r/a").unwrap();
    assert_eq!(
        cache.mkdir("/r/a"),
        Err(CacheError::LocationAlreadyExistsError { location: "/r/a".to_string() })
    );
    match (before, cache.read("/r/a").unwrap()) {
        (FileSystemItem::Directory(x), FileSystemItem::Directory(y)) => {
            assert_eq!(x.created, y.created)
        }
        _ => panic!("directory changed kind"),
    }
    assert!(cache.contains("/r"));
}

#[test]
fn mkdir_needs_an_indexed_parent() {
    let mut cache = Cache::new("/r", Listing::Found(Vec::new())).unwrap();
    assert_eq!(
        cache.mkdir("/r/a/b"),
        Err(CacheError::LocationDoesNotExistError { location: "/r/a/b".to_string() })
    );
    assert!(!cache.contains("/r/a/b"));
    assert_eq!(
        cache.mkdir("plain"),
        Err(CacheError::LocationDoesNotExistError { location: "plain".to_string() })
    );
}

#[test]
fn written_file_reads_back_and_is_never_overwritten() {
    let mut cache = Cache::new("/r", Listing::Found(Vec::new())).unwrap();
    cache.mkdir("/r/a").unwrap();
    let bytes = vec![7u8, 8, 9, 10];
    assert_eq!(cache.write("/r/a/f.txt", "f.txt", bytes.clone()), Ok(()));
    match cache.read("/r/a/f.txt").unwrap() {
        FileSystemItem::File(f) => {
            assert_eq!(f.buffer, bytes);
            assert_eq!(f.size, 4);
            assert_eq!(f.name, "f.txt");
            assert_eq!(f.location, "/r/a/f.txt");
            assert_eq!(f.created, f.modified);
        }
        FileSystemItem::Directory(_) => panic!("file read as a directory"),
    }
    assert_eq!(
        cache.write("/r/a/f.txt", "f.txt", vec![1]),
        Err(CacheError::LocationAlreadyExistsError { location: "/r/a/f.txt".to_string() })
    );
    match cache.read("/r/a/f.txt").unwrap() {
        FileSystemItem::File(f) => assert_eq!(f.buffer, bytes),
        FileSystemItem::Directory(_) => panic!("file read as a directory"),
    }
}

#[test]
fn write_needs_an_indexed_parent() {
    let mut cache = Cache::new("/r", Listing::Found(Vec::new())).unwrap();
    assert_eq!(
        cache.write("/r/none/f", "f", vec![1]),
        Err(CacheError::LocationDoesNotExistError { location: "/r/none/f".to_string() })
    );
}

#[test]
fn removing_a_directory_removes_its_contents() {
    let mut cache = Cache::new("/r", Listing::Found(Vec::new())).unwrap();
    cache.mkdir("/r/a").unwrap();
    cache.write("/r/a/f.txt", "f.txt", vec![1, 2]).unwrap();
    cache.mkdir("/r/b").unwrap();
    assert_eq!(cache.rm("/r/a"), Ok(()));
    assert!(!cache.contains("/r/a"));
    assert!(!cache.contains("/r/a/f.txt"));
    assert!(cache.contains("/r/b"));
    assert!(cache.contains("/r"));
    // the name is free again
    assert_eq!(cache.mkdir("/r/a"), Ok(()));
    assert!(!cache.contains("/r/a/f.txt"));
}

#[test]
fn removing_an_absent_location_changes_nothing() {
    let mut cache = project();
    assert_eq!(
        cache.rm("/Users/synoet/dev/imfs/nothing"),
        Err(CacheError::LocationDoesNotExistError {
            location: "/Users/synoet/dev/imfs/nothing".to_string()
        })
    );
    for location in [
        ROOT,
        "/Users/synoet/dev/imfs/Cargo.toml",
        "/Users/synoet/dev/imfs/src",
        "/Users/synoet/dev/imfs/src/lib.rs",
        "/Users/synoet/dev/imfs/src/htm.rs",
    ] {
        assert!(cache.contains(location));
    }
}

#[test]
fn read_of_absent_location_fails() {
    let cache = project();
    assert_eq!(
        cache.read("/Users/synoet/dev/imfs/README.md").err(),
        Some(CacheError::LocationDoesNotExistError {
            location: "/Users/synoet/dev/imfs/README.md".to_string()
        })
    );
    assert!(cache.is_dir("/Users/synoet/dev/imfs/README.md").is_err());
}

#[test]
fn read_hands_out_a_copy() {
    let cache = project();
    let mut copy = cache.read("/Users/synoet/dev/imfs/src/lib.rs").unwrap();
    if let FileSystemItem::File(f) = &mut copy {
        f.buffer.clear();
    }
    match cache.read("/Users/synoet/dev/imfs/src/lib.rs").unwrap() {
        FileSystemItem::File(f) => assert_eq!(f.buffer, b"mod htm;\n".to_vec()),
        FileSystemItem::Directory(_) => panic!("file read as a directory"),
    }
}

#[test]
fn locations_split_at_the_last_slash() {
    assert_eq!(parent_and_name("/a/b/c"), Some(("/a/b".to_string(), "c".to_string())));
    assert_eq!(parent_and_name("/a"), Some(("/".to_string(), "a".to_string())));
    assert_eq!(parent_and_name("x/y"), Some(("x".to_string(), "y".to_string())));
    assert_eq!(parent_and_name("/a/"), None);
    assert_eq!(parent_and_name("plain"), None);
    assert_eq!(parent_and_name(""), None);
}

#[test]
fn bytes_are_copied() {
    let b = vec![0u8, 255, 3];
    assert_eq!(copy_bytes(&b), b);
    assert!(copy_bytes(&Vec::new()).is_empty());
}

#[test]
fn clock_reads_after_the_epoch() {
    let t = Timestamp::now();
    assert!(t.secs > 1_600_000_000);
    assert!(t.nanos < 1_000_000_000);
}

#[test]
fn payload_describes_itself() {
    let cache = project();
    let f = cache.read("/Users/synoet/dev/imfs/src/lib.rs").unwrap();
    assert_eq!(f.name(), "lib.rs");
    assert_eq!(f.file_type(), "file");
    assert_eq!(f.location(), "/Users/synoet/dev/imfs/src/lib.rs");
    let d = cache.read("/Users/synoet/dev/imfs/src").unwrap();
    assert_eq!(d.name(), "/Users/synoet/dev/imfs/src");
    assert_eq!(d.file_type(), "directory");
    assert!(d.is_dir() && !f.is_dir());
}

#[test]
fn removing_the_root_empties_the_mirror() {
    let mut cache = project();
    assert_eq!(cache.rm(ROOT), Ok(()));
    assert!(!cache.contains(ROOT));
    assert!(!cache.contains("/Users/synoet/dev/imfs/src/lib.rs"));
    assert!(!cache.contains("/Users/synoet/dev/imfs/Cargo.toml"));
    assert!(cache.mkdir("/Users/synoet/dev/imfs/src").is_err());
    assert_eq!(cache.location(), ROOT);
}
