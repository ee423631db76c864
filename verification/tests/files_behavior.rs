//! File-area behaviour: round trips, bulk writes, listings, and the
//! rejection of escaping paths.

use base64::Engine;
use opensandbox::errors::ApiError;
use opensandbox::files::{SandboxFiles, WriteEntry};
use opensandbox::paths::{join_segments, normalize_path};

fn b64(s: &str) -> String {
    base64::engine::general_purpose::STANDARD.encode(s.as_bytes())
}

#[test]
fn write_then_read_round_trip() {
    let mut fs = SandboxFiles::new();
    fs.write_file("/a/b.txt", &b64("hello")).unwrap();
    assert_eq!(fs.read_file("/a/b.txt").unwrap(), b64("hello"));
    // The same file under an equivalent spelling of the path.
    assert_eq!(fs.read_file("a/./b.txt").unwrap(), b64("hello"));
    // Overwriting replaces the content.
    fs.write_file("a/b.txt", &b64("bye")).unwrap();
    assert_eq!(fs.read_file("/a/b.txt").unwrap(), b64("bye"));
}

#[test]
fn listing_shows_files_and_directories() {
    let mut fs = SandboxFiles::new();
    fs.write_file("/a/b.txt", &b64("hello")).unwrap();
    let entries = fs.list_files("/a").unwrap();
    assert_eq!(entries.len(), 1);
    assert!(entries.iter().any(|e| e.name == "b.txt" && !e.is_directory && e.size == 5
        && e.path == "/a/b.txt"));

    fs.write_file("/d/x/1.txt", &b64("1")).unwrap();
    fs.write_file("/d/x/2.txt", &b64("2")).unwrap();
    let entries = fs.list_files("/d").unwrap();
    assert_eq!(entries.len(), 1);
    assert!(entries[0].is_directory);
    assert_eq!(entries[0].name, "x");
    assert_eq!(entries[0].path, "/d/x");
    assert_eq!(entries[0].size, 0);

    let root = fs.list_files("/").unwrap();
    assert!(root.iter().any(|e| e.name == "a" && e.is_directory));
    assert!(root.iter().any(|e| e.name == "d" && e.is_directory));
}

#[test]
fn escaping_paths_are_rejected() {
    let mut fs = SandboxFiles::new();
    fs.write_file("/etc_secret", &b64("x")).unwrap();
    assert!(matches!(fs.read_file("../etc/passwd"), Err(ApiError::BadRequest)));
    assert!(matches!(fs.read_file("/a/../../etc"), Err(ApiError::BadRequest)));
    assert!(matches!(fs.list_files("a/../.."), Err(ApiError::BadRequest)));
    assert!(matches!(
        fs.write_file("/a/../../x", &b64("y")),
        Err(ApiError::BadRequest)
    ));
    // Traversal that stays inside the sandbox is fine.
    fs.write_file("/a/../etc_other", &b64("ok")).unwrap();
    assert_eq!(fs.read_file("/etc_other").unwrap(), b64("ok"));
}

#[test]
fn missing_files_and_directories_are_not_found() {
    let fs = SandboxFiles::new();
    assert!(matches!(fs.read_file("/nope"), Err(ApiError::NotFound)));
    let mut fs = SandboxFiles::new();
    fs.write_file("/a/b.txt", &b64("hello")).unwrap();
    assert!(matches!(fs.list_files("/zzz"), Err(ApiError::NotFound)));
    // The root always exists, even when empty.
    assert!(SandboxFiles::new().list_files("/").unwrap().is_empty());
}

#[test]
fn invalid_base64_is_a_bad_request() {
    let mut fs = SandboxFiles::new();
    assert!(matches!(
        fs.write_file("/x", &"not base64!!".to_string()),
        Err(ApiError::BadRequest)
    ));
    assert!(matches!(fs.read_file("/x"), Err(ApiError::NotFound)));
}

#[test]
fn bulk_write_equals_sequential_writes() {
    let mut bulk = SandboxFiles::new();
    let report = bulk
        .write_files_bulk(&vec![
            WriteEntry { path: "/a/1.txt".to_string(), content: b64("one") },
            WriteEntry { path: "/b/2.txt".to_string(), content: b64("two") },
        ])
        .unwrap();
    assert!(report.success);
    assert!(report.errors.is_empty());

    let mut seq = SandboxFiles::new();
    seq.write_file("/a/1.txt", &b64("one")).unwrap();
    seq.write_file("/b/2.txt", &b64("two")).unwrap();

    for path in ["/a/1.txt", "/b/2.txt"] {
        assert_eq!(bulk.read_file(path).unwrap(), seq.read_file(path).unwrap());
    }
}

#[test]
fn bulk_write_reports_bad_paths_and_rejects_bad_base64() {
    let mut fs = SandboxFiles::new();
    let report = fs
        .write_files_bulk(&vec![
            WriteEntry { path: "/ok.txt".to_string(), content: b64("fine") },
            WriteEntry { path: "../escape".to_string(), content: b64("nope") },
        ])
        .unwrap();
    assert!(!report.success);
    assert_eq!(report.errors.len(), 1);
    assert_eq!(report.errors[0].path, "../escape");
    assert_eq!(fs.read_file("/ok.txt").unwrap(), b64("fine"));

    let mut fs2 = SandboxFiles::new();
    let err = fs2.write_files_bulk(&vec![
        WriteEntry { path: "/first.txt".to_string(), content: b64("fine") },
        WriteEntry { path: "/second.txt".to_string(), content: "!!!".to_string() },
    ]);
    assert!(matches!(err, Err(ApiError::BadRequest)));
    // Nothing was written: the request is rejected whole.
    assert!(matches!(fs2.read_file("/first.txt"), Err(ApiError::NotFound)));
}

#[test]
fn a_path_cannot_be_both_a_file_and_a_directory() {
    // Writing below an existing file fails as the filesystem would.
    let mut fs = SandboxFiles::new();
    fs.write_file("/a/x", &b64("file")).unwrap();
    assert!(matches!(fs.write_file("/a/x/y", &b64("deeper")), Err(ApiError::Internal)));
    // Writing a file where a directory stands fails too.
    let mut fs2 = SandboxFiles::new();
    fs2.write_file("/a/x/y", &b64("deeper")).unwrap();
    assert!(matches!(fs2.write_file("/a/x", &b64("file")), Err(ApiError::Internal)));
    // Overwriting the same path stays allowed.
    fs2.write_file("/a/x/y", &b64("again")).unwrap();
    assert_eq!(fs2.read_file("/a/x/y").unwrap(), b64("again"));
}

#[test]
fn bulk_write_reports_conflicting_paths() {
    let mut fs = SandboxFiles::new();
    let report = fs
        .write_files_bulk(&vec![
            WriteEntry { path: "/d/file".to_string(), content: b64("one") },
            WriteEntry { path: "/d/file/below".to_string(), content: b64("two") },
        ])
        .unwrap();
    assert!(!report.success);
    assert_eq!(report.errors.len(), 1);
    assert_eq!(report.errors[0].path, "/d/file/below");
    assert_eq!(fs.read_file("/d/file").unwrap(), b64("one"));
}

#[test]
fn path_normalization() {
    let segs = normalize_path("/a//b/./c/../d").unwrap();
    assert_eq!(segs, vec!["a".to_string(), "b".to_string(), "d".to_string()]);
    assert_eq!(join_segments(&segs), "/a/b/d");
    assert!(normalize_path("..").is_none());
    assert!(normalize_path("a/../../b").is_none());
    assert_eq!(normalize_path("").unwrap(), Vec::<String>::new());
    assert_eq!(normalize_path("/").unwrap(), Vec::<String>::new());
}
