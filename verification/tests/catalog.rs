use seamless::catalog::{bytes_le, has_extension, plan_catalog, sort_paths};
use seamless::error::LoopError;

fn bytes(s: &str) -> Vec<u8> {
    s.as_bytes().to_vec()
}

#[test]
fn test_plan_catalog_filters_and_sorts() {
    let paths = vec![
        bytes("dir/b.png"),
        bytes("dir/a.png"),
        bytes("dir/c.txt"),
        bytes("dir/noext"),
        bytes("dir/.png"),
        bytes("dir/x.png"),
    ];
    let catalog = plan_catalog(paths, &bytes("png")).unwrap();
    assert_eq!(
        catalog,
        vec![bytes("dir/a.png"), bytes("dir/b.png"), bytes("dir/x.png")]
    );
}

#[test]
fn test_plan_catalog_no_matching_files() {
    let paths = vec![bytes("dir/a.png"), bytes("dir/b.txt")];
    assert_eq!(plan_catalog(paths, &bytes("gif")), Err(LoopError::NoMatchingFiles));
}

#[test]
fn test_plan_catalog_empty_listing() {
    assert_eq!(plan_catalog(Vec::new(), &bytes("png")), Err(LoopError::NoMatchingFiles));
}

#[test]
fn test_plan_catalog_keeps_duplicates() {
    let paths = vec![bytes("a.png"), bytes("a.png")];
    let catalog = plan_catalog(paths, &bytes("png")).unwrap();
    assert_eq!(catalog.len(), 2);
}

#[test]
fn test_has_extension() {
    assert!(has_extension(&bytes("dir/frame.png"), &bytes("png")));
    assert!(has_extension(&bytes("frame.png"), &bytes("png")));
    assert!(has_extension(&bytes("a.b/frame.tar.png"), &bytes("png")));
    assert!(!has_extension(&bytes("dir/frame.png"), &bytes("gif")));
    assert!(!has_extension(&bytes("dir/frame"), &bytes("png")));
    // A file name that is nothing but its dot and extension has no
    // extension at all.
    assert!(!has_extension(&bytes("dir/.png"), &bytes("png")));
    assert!(!has_extension(&bytes("dir.png/frame"), &bytes("png")));
}

#[test]
fn test_bytes_le_order() {
    assert!(bytes_le(&bytes("a"), &bytes("b")));
    assert!(bytes_le(&bytes("a"), &bytes("a")));
    assert!(bytes_le(&bytes("a"), &bytes("ab")));
    assert!(!bytes_le(&bytes("ab"), &bytes("a")));
    assert!(!bytes_le(&bytes("b"), &bytes("ab")));
    assert!(bytes_le(&bytes(""), &bytes("a")));
}

#[test]
fn test_sort_paths_lexicographic() {
    let mut v = vec![bytes("b10"), bytes("a2"), bytes("b1"), bytes("a10")];
    sort_paths(&mut v);
    assert_eq!(v, vec![bytes("a10"), bytes("a2"), bytes("b1"), bytes("b10")]);
}
