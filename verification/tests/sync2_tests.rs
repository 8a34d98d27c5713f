use fpm::apis::sync2::{
    answer_sync, client_current_files, client_history_files, current_files_to_read, delete_outcome,
    get_all_versions, history_entry_name, merge_outcome, plan_request_file, snapshot_diff,
    sync_response, DeleteOutcome, FileEdit, FileOperation, MergeOutcome, RequestPlan, SyncRequestFile,
    SyncResponseFile, SyncStatus, SyncWork,
};
use fpm::error::Error;
use fpm::strmap::StrMap;

fn edits(entries: &[(&str, i32)]) -> StrMap<FileEdit> {
    let mut m = StrMap::new();
    for (k, v) in entries {
        m.insert(k.to_string(), FileEdit { version: *v });
    }
    m
}

#[test]
fn response_file_accessors() {
    let f = SyncResponseFile::Update { path: "a.ftd".to_string(), status: SyncStatus::Conflict, content: vec![] };
    assert!(f.is_conflicted());
    assert!(!f.is_deleted());
    assert_eq!(f.path(), "a.ftd");
    let g = SyncResponseFile::Delete { path: "b".to_string(), status: SyncStatus::NoConflict, content: vec![] };
    assert!(!g.is_conflicted());
    assert!(g.is_deleted());
    let h = SyncResponseFile::Add { path: "c".to_string(), status: SyncStatus::ClientEditedServerDeleted, content: vec![] };
    assert!(h.is_conflicted());
}

#[test]
fn plans() {
    let server = edits(&[("a.ftd", 3), ("b.ftd", 5)]);
    match plan_request_file(SyncRequestFile::Add { path: "n.ftd".to_string(), content: b"x".to_vec() }, &server) {
        RequestPlan::Write { path, content, operation } => {
            assert_eq!(path, "n.ftd");
            assert_eq!(content, b"x".to_vec());
            assert_eq!(operation, FileOperation::Added);
        }
        p => panic!("{:?}", p),
    }
    match plan_request_file(SyncRequestFile::Update { path: "a.ftd".to_string(), content: vec![1], version: 3 }, &server) {
        RequestPlan::Write { operation, .. } => assert_eq!(operation, FileOperation::Updated),
        p => panic!("{:?}", p),
    }
    match plan_request_file(SyncRequestFile::Update { path: "a.ftd".to_string(), content: vec![1], version: 2 }, &server) {
        RequestPlan::Merge { ancestor_version, theirs_version, ours, .. } => {
            assert_eq!((ancestor_version, theirs_version), (2, 3));
            assert_eq!(ours, vec![1]);
        }
        p => panic!("{:?}", p),
    }
    match plan_request_file(SyncRequestFile::Update { path: "gone.ftd".to_string(), content: vec![7], version: 1 }, &server) {
        RequestPlan::Respond(SyncResponseFile::Update { path, status, content }) => {
            assert_eq!(path, "gone.ftd");
            assert_eq!(status, SyncStatus::ClientEditedServerDeleted);
            assert_eq!(content, vec![7]);
        }
        p => panic!("{:?}", p),
    }
    assert!(matches!(
        plan_request_file(SyncRequestFile::Delete { path: "gone.ftd".to_string(), version: 1 }, &server),
        RequestPlan::Skip
    ));
    match plan_request_file(SyncRequestFile::Delete { path: "b.ftd".to_string(), version: 4 }, &server) {
        RequestPlan::CheckDelete { client_version, server_version, .. } => assert_eq!((client_version, server_version), (4, 5)),
        p => panic!("{:?}", p),
    }
}

#[test]
fn deletes() {
    match delete_outcome("b".to_string(), 4, 5, b"srv".to_vec()) {
        DeleteOutcome::Conflict(SyncResponseFile::Update { status, content, .. }) => {
            assert_eq!(status, SyncStatus::ClientDeletedServerEdited);
            assert_eq!(content, b"srv".to_vec());
        }
        o => panic!("{:?}", o),
    }
    assert!(matches!(delete_outcome("b".to_string(), 5, 5, vec![]), DeleteOutcome::Remove));
}

#[test]
fn merges() {
    let ancestor = "a\nb\nc\nd\ne\n";
    let ours = "a\nB\nc\nd\ne\n";
    let theirs = "a\nb\nc\nD\ne\n";
    match merge_outcome("f.ftd".to_string(), ancestor, ours.as_bytes(), theirs).unwrap() {
        MergeOutcome::Merged { data, response } => {
            assert_eq!(data, "a\nB\nc\nD\ne\n");
            match response {
                SyncResponseFile::Update { path, status, content } => {
                    assert_eq!(path, "f.ftd");
                    assert_eq!(status, SyncStatus::NoConflict);
                    assert_eq!(content, b"a\nB\nc\nD\ne\n".to_vec());
                }
                r => panic!("{:?}", r),
            }
        }
        o => panic!("{:?}", o),
    }
    match merge_outcome("f.ftd".to_string(), ancestor, "a\nX\nc\nd\ne\n".as_bytes(), "a\nY\nc\nd\ne\n").unwrap() {
        MergeOutcome::Conflict { response: SyncResponseFile::Update { status, content, .. } } => {
            assert_eq!(status, SyncStatus::Conflict);
            let text = String::from_utf8(content).unwrap();
            assert!(text.contains("<<<<<<<") && text.contains(">>>>>>>"));
        }
        o => panic!("{:?}", o),
    }
    match merge_outcome("f.ftd".to_string(), ancestor, &[0xff, 0xfe], theirs) {
        Err(Error::APIResponseError(m)) => assert_eq!(m, String::from_utf8(vec![0xff, 0xfe]).unwrap_err().to_string()),
        o => panic!("{:?}", o),
    }
}

#[test]
fn diff_of_snapshots() {
    let server = edits(&[("a", 2), ("b", 3), ("c", 1), ("d", 4)]);
    let client = edits(&[("a", 2), ("b", 1), ("d", 5), ("z", 1)]);
    assert_eq!(snapshot_diff(&server, &client), vec!["b", "c"]);
    assert!(snapshot_diff(&edits(&[]), &client).is_empty());
}

#[test]
fn versions_of_a_path() {
    let history: Vec<String> = ["a/b.1.ftd", "a/b.20.ftd", "a/b.3.md", "a/bc.4.ftd", "x.5.ftd"]
        .iter().map(|s| s.to_string()).collect();
    let v = get_all_versions("a/b.ftd", &history).unwrap();
    assert_eq!(v, vec![(1, "a/b.1.ftd".to_string()), (20, "a/b.20.ftd".to_string())]);
    let h2: Vec<String> = ["Makefile.7", "Makefile.8.bak"].iter().map(|s| s.to_string()).collect();
    assert_eq!(get_all_versions("Makefile", &h2).unwrap(), vec![(7, "Makefile.7".to_string())]);
}

#[test]
fn history_names_and_files() {
    assert_eq!(history_entry_name("/srv/.history/a/b.1.ftd", "/srv/.history"), "a/b.1.ftd");
    assert_eq!(history_entry_name("/srv/.history/", "/srv/.history"), "");
    assert_eq!(history_entry_name("x", ""), "x");
    let server = edits(&[("a.ftd", 3), ("b.ftd", 2)]);
    let client = edits(&[("a.ftd", 1)]);
    let history: Vec<String> = ["a.1.ftd", "a.2.ftd", "a.3.ftd", "b.2.ftd", "c.9.ftd"]
        .iter().map(|s| s.to_string()).collect();
    let files = client_history_files(&server, &client, &history).unwrap();
    assert_eq!(files, vec!["a.2.ftd", "a.3.ftd", "b.2.ftd"]);
}

#[test]
fn current_files_answered() {
    let server = edits(&[("a", 3), ("b", 2), ("c", 1)]);
    let client = edits(&[("a", 1), ("c", 1), ("gone", 4), ("kept", 1)]);
    let mut synced: StrMap<SyncResponseFile> = StrMap::new();
    synced.insert("b".to_string(), SyncResponseFile::Update { path: "b".to_string(), status: SyncStatus::Conflict, content: vec![9] });
    synced.insert("kept".to_string(), SyncResponseFile::Update { path: "kept".to_string(), status: SyncStatus::Conflict, content: vec![8] });
    let reads = current_files_to_read(&server, &client, &synced);
    assert_eq!(reads, vec!["a"]);
    client_current_files(&server, &client, &mut synced, vec![b"A".to_vec()]).unwrap();
    assert_eq!(synced.len(), 4);
    match synced.get("a").unwrap() {
        SyncResponseFile::Add { status, content, .. } => {
            assert_eq!(*status, SyncStatus::NoConflict);
            assert_eq!(content, &b"A".to_vec());
        }
        o => panic!("{:?}", o),
    }
    assert!(matches!(synced.get("gone").unwrap(), SyncResponseFile::Delete { .. }));
    assert!(matches!(synced.get("kept").unwrap(), SyncResponseFile::Update { .. }));
    assert!(matches!(synced.get("b").unwrap(), SyncResponseFile::Update { .. }));
}

#[test]
fn work_and_response() {
    let mut w = SyncWork::new();
    w.record_edit("b".to_string(), FileOperation::Updated);
    w.record_edit("b".to_string(), FileOperation::Deleted);
    assert_eq!(*w.file_list.get("b").unwrap(), FileOperation::Deleted);
    w.respond(SyncResponseFile::Add { path: "z".to_string(), status: SyncStatus::NoConflict, content: vec![] });
    w.respond(SyncResponseFile::Add { path: "m".to_string(), status: SyncStatus::NoConflict, content: vec![] });
    let r = sync_response(w, vec![], "latest".to_string());
    let paths: Vec<String> = r.files.iter().map(|f| f.path()).collect();
    assert_eq!(paths, vec!["m", "z"]);
    assert_eq!(r.latest_ftd, "latest");
}

#[test]
fn answer_covers_behind_files_once() {
    let server = edits(&[("a", 3), ("b", 2), ("c", 1)]);
    let client = edits(&[("a", 1), ("c", 1), ("gone", 4)]);
    let mut w = SyncWork::new();
    w.respond(SyncResponseFile::Update { path: "b".to_string(), status: SyncStatus::Conflict, content: vec![9] });
    let r = answer_sync(w, &server, &client, vec![b"A".to_vec()], vec![], "latest".to_string());
    let paths: Vec<String> = r.files.iter().map(|f| f.path()).collect();
    assert_eq!(paths, vec!["a", "b", "gone"]);
    assert!(matches!(&r.files[0], SyncResponseFile::Add { status: SyncStatus::NoConflict, content, .. } if content == &b"A".to_vec()));
    assert!(matches!(&r.files[1], SyncResponseFile::Update { status: SyncStatus::Conflict, .. }));
    assert!(matches!(&r.files[2], SyncResponseFile::Delete { status: SyncStatus::NoConflict, content, .. } if content.is_empty()));
    assert_eq!(r.latest_ftd, "latest");
}
