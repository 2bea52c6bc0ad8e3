use dlerust::digest::hash_bytes;
use dlerust::fingerprint::hash_package;
use dlerust::fingerprint::FileEntry;
use dlerust::fingerprint::Fingerprint;
use dlerust::fingerprint::HashError;

fn entry(path: &str, is_file: bool, content: Option<&[u8]>) -> FileEntry {
    FileEntry {
        path: path.as_bytes().to_vec(),
        is_file,
        content: content.map(|c| c.to_vec()),
    }
}

fn fingerprint(root: &str, entries: Vec<FileEntry>) -> Fingerprint {
    hash_package(&root.as_bytes().to_vec(), entries).unwrap()
}

#[test]
fn two_files_scenario() {
    let fp = fingerprint(
        "/pkg",
        vec![
            entry("/pkg/a.txt", true, Some(b"x")),
            entry("/pkg/b.txt", true, Some(b"y")),
        ],
    );
    assert_eq!(fp.digest.len(), 32);
    assert!(fp.digest.chars().all(|c| c.is_ascii_hexdigit() && !c.is_uppercase()));
}

#[test]
fn reverse_scan_order_same_digest() {
    let d1 = fingerprint(
        "/pkg",
        vec![
            entry("/pkg/a.txt", true, Some(b"x")),
            entry("/pkg/b.txt", true, Some(b"y")),
        ],
    );
    let d2 = fingerprint(
        "/pkg",
        vec![
            entry("/pkg/b.txt", true, Some(b"y")),
            entry("/pkg/a.txt", true, Some(b"x")),
        ],
    );
    assert_eq!(d1.digest, d2.digest);
    assert_eq!(d1.manifest, d2.manifest);
}

#[test]
fn repeated_invocation_same_digest() {
    let d1 = fingerprint("/pkg", vec![entry("/pkg/a.txt", true, Some(b"x"))]);
    let d2 = fingerprint("/pkg", vec![entry("/pkg/a.txt", true, Some(b"x"))]);
    assert_eq!(d1.digest, d2.digest);
    assert_eq!(d1.manifest, d2.manifest);
}

#[test]
fn changed_content_changes_digest() {
    let d1 = fingerprint(
        "/pkg",
        vec![
            entry("/pkg/a.txt", true, Some(b"x")),
            entry("/pkg/b.txt", true, Some(b"y")),
        ],
    );
    let d2 = fingerprint(
        "/pkg",
        vec![
            entry("/pkg/a.txt", true, Some(b"z")),
            entry("/pkg/b.txt", true, Some(b"y")),
        ],
    );
    assert_ne!(d1.digest, d2.digest);
}

#[test]
fn added_file_changes_digest() {
    let d1 = fingerprint(
        "/pkg",
        vec![
            entry("/pkg/a.txt", true, Some(b"x")),
            entry("/pkg/b.txt", true, Some(b"y")),
        ],
    );
    let d2 = fingerprint(
        "/pkg",
        vec![
            entry("/pkg/a.txt", true, Some(b"z")),
            entry("/pkg/b.txt", true, Some(b"y")),
        ],
    );
    let d3 = fingerprint(
        "/pkg",
        vec![
            entry("/pkg/a.txt", true, Some(b"x")),
            entry("/pkg/b.txt", true, Some(b"y")),
            entry("/pkg/c.txt", true, Some(b"w")),
        ],
    );
    assert_ne!(d3.digest, d1.digest);
    assert_ne!(d3.digest, d2.digest);
}

#[test]
fn removed_file_changes_digest() {
    let d1 = fingerprint(
        "/pkg",
        vec![
            entry("/pkg/a.txt", true, Some(b"x")),
            entry("/pkg/b.txt", true, Some(b"y")),
        ],
    );
    let d2 = fingerprint("/pkg", vec![entry("/pkg/a.txt", true, Some(b"x"))]);
    assert_ne!(d1.digest, d2.digest);
}

#[test]
fn renamed_file_changes_digest() {
    let d1 = fingerprint("/pkg", vec![entry("/pkg/a.txt", true, Some(b"x"))]);
    let d2 = fingerprint("/pkg", vec![entry("/pkg/renamed.txt", true, Some(b"x"))]);
    assert_ne!(d1.digest, d2.digest);
}

#[test]
fn empty_package_well_defined() {
    let fp = fingerprint("/pkg", vec![]);
    assert_eq!(fp.manifest, Vec::<u8>::new());
    // The digest of the empty manifest is the well-known MD5 of "".
    assert_eq!(fp.digest, "d41d8cd98f00b204e9800998ecf8427e");
}

#[test]
fn directory_entry_does_not_affect_digest() {
    let d1 = fingerprint(
        "/pkg",
        vec![
            entry("/pkg/a.txt", true, Some(b"x")),
            entry("/pkg/sub", false, None),
        ],
    );
    let d2 = fingerprint("/pkg", vec![entry("/pkg/a.txt", true, Some(b"x"))]);
    assert_eq!(d1.digest, d2.digest);
    assert_eq!(d1.manifest, d2.manifest);
}

#[test]
fn directory_content_is_irrelevant() {
    // Only an entry's path, kind and bytes matter; a non-file entry
    // contributes nothing either way.
    let d1 = fingerprint(
        "/pkg",
        vec![
            entry("/pkg/a.txt", true, Some(b"x")),
            entry("/pkg/sub", false, Some(b"junk")),
        ],
    );
    let d2 = fingerprint(
        "/pkg",
        vec![
            entry("/pkg/a.txt", true, Some(b"x")),
            entry("/pkg/sub", false, None),
        ],
    );
    assert_eq!(d1.digest, d2.digest);
    assert_eq!(d1.manifest, d2.manifest);
}

#[test]
fn root_independence() {
    let d1 = fingerprint(
        "/x",
        vec![
            entry("/x/a.txt", true, Some(b"x")),
            entry("/x/sub/b.txt", true, Some(b"y")),
        ],
    );
    let d2 = fingerprint(
        "/long/other/root",
        vec![
            entry("/long/other/root/a.txt", true, Some(b"x")),
            entry("/long/other/root/sub/b.txt", true, Some(b"y")),
        ],
    );
    assert_eq!(d1.digest, d2.digest);
    assert_eq!(d1.manifest, d2.manifest);
}

#[test]
fn manifest_matches_md5_lines_exactly() {
    let fp = fingerprint("/pkg", vec![entry("/pkg/a.txt", true, Some(b"x"))]);
    let expected = format!("{:x}-a.txt", md5::compute(b"x")).into_bytes();
    assert_eq!(fp.manifest, expected);
    let expected_digest = format!("{:x}", md5::compute(&fp.manifest));
    assert_eq!(fp.digest, expected_digest);
}

#[test]
fn manifest_lines_sorted_by_path() {
    let fp = fingerprint(
        "/pkg",
        vec![
            entry("/pkg/c.txt", true, Some(b"3")),
            entry("/pkg/a.txt", true, Some(b"1")),
            entry("/pkg/b.txt", true, Some(b"2")),
        ],
    );
    let manifest = String::from_utf8(fp.manifest.clone()).unwrap();
    let rels: Vec<&str> = manifest
        .split('\n')
        .map(|line| line.split_once('-').unwrap().1)
        .collect();
    assert_eq!(rels, vec!["a.txt", "b.txt", "c.txt"]);
}

#[test]
fn path_outside_root_falls_back_to_full_path() {
    let fp = fingerprint("/pkg", vec![entry("elsewhere/f.txt", true, Some(b"x"))]);
    let manifest = String::from_utf8(fp.manifest.clone()).unwrap();
    assert!(manifest.ends_with("-elsewhere/f.txt"));
}

#[test]
fn unreadable_file_is_fatal() {
    let r = hash_package(
        &b"/pkg".to_vec(),
        vec![
            entry("/pkg/ok.txt", true, Some(b"x")),
            entry("/pkg/bad.txt", true, None),
            entry("/pkg/also-bad.txt", true, None),
        ],
    );
    match r {
        Err(HashError::UnreadableFile { path }) => {
            assert_eq!(path, b"/pkg/bad.txt".to_vec());
        }
        Ok(_) => panic!("an unreadable file must fail the fingerprint"),
    }
}

#[test]
fn unreadable_directory_is_not_fatal() {
    // Directories carry no content; only regular files must be readable.
    let r = hash_package(
        &b"/pkg".to_vec(),
        vec![
            entry("/pkg/ok.txt", true, Some(b"x")),
            entry("/pkg/sub", false, None),
        ],
    );
    assert!(r.is_ok());
}

#[test]
fn hash_bytes_known_values() {
    assert_eq!(hash_bytes(&b"abc".to_vec()), "900150983cd24fb0d6963f7d28e17f72");
    assert_eq!(hash_bytes(&Vec::new()), "d41d8cd98f00b204e9800998ecf8427e");
    assert_eq!(
        hash_bytes(&b"hello".to_vec()),
        format!("{:x}", md5::compute(b"hello"))
    );
}
