use fpm::apis::sync::SyncRequestFile;
use fpm::commands::sync::{
    bytes_eq, carry_snapshots, contains_string, get_changed_files, removed_files, same_digest,
    write_outcome, Snapshot,
};
use fpm::document::{Document, File};
use fpm::strmap::StrMap;

fn ftd(id: &str) -> File {
    File::Ftd(Document {
        package_name: "p".to_string(),
        id: id.to_string(),
        content: String::new(),
        parent_path: "/p".to_string(),
    })
}

fn snaps(entries: &[(&str, u128)]) -> StrMap<u128> {
    let mut m = StrMap::new();
    for (k, v) in entries {
        m.insert(k.to_string(), *v);
    }
    m
}

#[test]
fn digests_and_bytes() {
    assert!(same_digest(b"abc", b"abc"));
    assert!(!same_digest(b"abc", b"abd"));
    assert!(bytes_eq(b"", b""));
    assert!(!bytes_eq(b"a", b"ab"));
    assert!(contains_string(&vec!["a".to_string(), "b".to_string()], "b"));
    assert!(!contains_string(&vec![], "b"));
}

#[test]
fn changed_files() {
    let files = vec![ftd("same.ftd"), ftd("edited.ftd"), ftd("new.ftd")];
    let snapshots = snaps(&[("edited.ftd", 1), ("old.ftd", 2), ("same.ftd", 3)]);
    let snapshot_contents = vec![Some(b"s".to_vec()), Some(b"e1".to_vec()), None];
    let contents = vec![b"s".to_vec(), b"e2".to_vec(), b"n".to_vec()];
    let changes = get_changed_files(&files, &snapshots, &snapshot_contents, contents);
    assert_eq!(changes.len(), 3);
    match &changes[0] {
        SyncRequestFile::Update { path, content } => {
            assert_eq!(path, "edited.ftd");
            assert_eq!(content, &b"e2".to_vec());
        }
        c => panic!("{:?}", c),
    }
    match &changes[1] {
        SyncRequestFile::Add { path, content } => {
            assert_eq!(path, "new.ftd");
            assert_eq!(content, &b"n".to_vec());
        }
        c => panic!("{:?}", c),
    }
    match &changes[2] {
        SyncRequestFile::Delete { path } => assert_eq!(path, "old.ftd"),
        c => panic!("{:?}", c),
    }
}

#[test]
fn snapshot_outcomes() {
    let snapshots = snaps(&[("a.ftd", 7)]);
    let (s, m) = write_outcome("a.ftd".to_string(), 9, &snapshots, Some(b"x".to_vec()), Some(b"x".to_vec()));
    assert_eq!((s.filename.as_str(), s.timestamp, m), ("a.ftd", 7, false));
    let (s, m) = write_outcome("a.ftd".to_string(), 9, &snapshots, Some(b"y".to_vec()), Some(b"x".to_vec()));
    assert_eq!((s.timestamp, m), (9, true));
    let (s, m) = write_outcome("a.ftd".to_string(), 9, &snapshots, None, None);
    assert_eq!((s.timestamp, m), (9, true));
    let (s, m) = write_outcome("b.ftd".to_string(), 9, &snapshots, Some(vec![]), None);
    assert_eq!((s.filename.as_str(), s.timestamp, m), ("b.ftd", 9, true));
}

#[test]
fn carried_and_removed() {
    let snapshots = snaps(&[("a", 1), ("b", 2), ("c", 3), ("d", 4)]);
    let mut new_snapshots = vec![Snapshot { filename: "a".to_string(), timestamp: 9 }];
    carry_snapshots(&mut new_snapshots, &snapshots, &vec!["a".to_string(), "c".to_string()]);
    let got: Vec<(String, u128)> = new_snapshots.iter().map(|s| (s.filename.clone(), s.timestamp)).collect();
    assert_eq!(got, vec![("a".to_string(), 9), ("b".to_string(), 2), ("d".to_string(), 4)]);
    assert_eq!(removed_files(&new_snapshots, &snapshots), vec!["c"]);
}
