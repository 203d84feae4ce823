use maestro::installer::{sanitize_entry, vendor_dir, Archive};
use std::io::Write;

#[test]
fn sanitize_strips_wrapper_directory() {
    // extraction skips the single top-level wrapper directory
    let got = sanitize_entry(b"pkg-abc123/src/File.php").unwrap();
    assert_eq!(got, b"src/File.php".to_vec());
}

#[test]
fn sanitize_skips_directory_entries() {
    assert!(sanitize_entry(b"pkg-abc123/src/").is_none());
    assert!(sanitize_entry(b"pkg-abc123\\").is_none());
}

#[test]
fn sanitize_rejects_traversal_and_absolute() {
    assert!(sanitize_entry(b"../evil.php").is_none());
    assert!(sanitize_entry(b"pkg/../../evil.php").is_none());
    assert!(sanitize_entry(b"/etc/passwd").is_none());
}

#[test]
fn sanitize_rejects_backslash_names() {
    // a backslash reads as a separator under the other path convention
    assert!(sanitize_entry(b"pkg/..\\evil.php").is_none());
    assert!(sanitize_entry(b"a/\\..\\..\\x").is_none());
    assert!(sanitize_entry(b"pkg/a\\b.php").is_none());
}

#[test]
fn sanitize_skips_entries_without_wrapper() {
    assert!(sanitize_entry(b"README.md").is_none());
    assert!(sanitize_entry(b"pkg-abc123").is_none());
}

#[test]
fn sanitize_normalizes_empty_and_here_components() {
    assert_eq!(sanitize_entry(b"pkg//x.php").unwrap(), b"x.php".to_vec());
    assert_eq!(sanitize_entry(b"pkg/./x.php").unwrap(), b"x.php".to_vec());
}

#[test]
fn vendor_dir_joins_name() {
    assert_eq!(vendor_dir("acme/lib"), "vendor/acme/lib");
}

fn build_zip() -> Vec<u8> {
    let mut w = zip::ZipWriter::new(std::io::Cursor::new(Vec::new()));
    let opts = zip::write::SimpleFileOptions::default();
    w.add_directory("pkg-abc123/", opts).unwrap();
    w.start_file("pkg-abc123/src/File.php", opts).unwrap();
    w.write_all(b"<?php echo 1;").unwrap();
    w.start_file("pkg-abc123/README", opts).unwrap();
    w.write_all(b"hello").unwrap();
    w.finish().unwrap().into_inner()
}

#[test]
fn extract_plan_from_real_archive() {
    let bytes = build_zip();
    let mut archive = Archive::open(bytes).unwrap();
    let plan = archive.extract_plan().unwrap();
    assert_eq!(plan.len(), 2);
    assert_eq!(plan[0].0, b"src/File.php".to_vec());
    assert_eq!(plan[0].1, b"<?php echo 1;".to_vec());
    assert_eq!(plan[1].0, b"README".to_vec());
    assert_eq!(plan[1].1, b"hello".to_vec());
}

#[test]
fn open_rejects_garbage() {
    assert!(Archive::open(b"not a zip".to_vec()).is_err());
}

#[test]
fn extract_plan_is_repeatable() {
    // planning reads entries but leaves the archive's table unchanged
    let mut archive = Archive::open(build_zip()).unwrap();
    let first = archive.extract_plan().unwrap();
    let second = archive.extract_plan().unwrap();
    assert_eq!(first, second);
}
