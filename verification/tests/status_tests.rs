use fpm::status::{
    get_file_status, get_track_status, print_file_status, print_track_status, snapshot_path, status_report, track_status_debug,
    track_status, FileStatus, TrackStatus, TrackingInfo,
};
use fpm::strmap::StrMap;

fn smap(entries: &[(&str, &str)]) -> StrMap<String> {
    let mut m = StrMap::new();
    for (k, v) in entries {
        m.insert(k.to_string(), v.to_string());
    }
    m
}

#[test]
fn snapshot_paths() {
    assert_eq!(snapshot_path("/p", "a/b.ftd", "123"), "/p/.history/a/b.123.ftd");
}

#[test]
fn file_statuses() {
    let snapshots = smap(&[("a.ftd", "1")]);
    assert_eq!(get_file_status("a.ftd", "x", &snapshots, Some("x")), FileStatus::Unchanged);
    assert_eq!(get_file_status("a.ftd", "x", &snapshots, Some("y")), FileStatus::Modified);
    assert_eq!(get_file_status("b.ftd", "x", &snapshots, None), FileStatus::Added);
}

#[test]
fn track_statuses() {
    assert_eq!(track_status("5", None), TrackStatus::NeverMarked);
    assert_eq!(track_status("5", Some("5")), TrackStatus::Uptodate);
    assert_eq!(
        track_status("3000000001", Some("1000000000")),
        TrackStatus::Outofdate { days: "2".to_string() }
    );
    let snapshots = smap(&[("a.ftd", "10"), ("b.ftd", "20")]);
    let tracks = vec![
        TrackingInfo { document_name: "a.ftd".to_string(), other_timestamp: None },
        TrackingInfo { document_name: "c.ftd".to_string(), other_timestamp: None },
        TrackingInfo { document_name: "b.ftd".to_string(), other_timestamp: Some("20".to_string()) },
    ];
    let t = get_track_status(&tracks, &snapshots);
    assert_eq!(t.len(), 2);
    assert_eq!(t.get("a.ftd"), Some(&TrackStatus::NeverMarked));
    assert_eq!(t.get("b.ftd"), Some(&TrackStatus::Uptodate));
}

#[test]
fn file_status_report() {
    let snapshots = smap(&[("a.ftd", "1"), ("b.ftd", "1"), ("gone.ftd", "1")]);
    let mut fs: StrMap<FileStatus> = StrMap::new();
    fs.insert("a.ftd".to_string(), FileStatus::Unchanged);
    fs.insert("b.ftd".to_string(), FileStatus::Modified);
    fs.insert("c.ftd".to_string(), FileStatus::Added);
    let (lines, clean) = print_file_status(&snapshots, &fs);
    assert_eq!(lines, vec!["Modified: b.ftd", "Removed: gone.ftd", "Added: c.ftd"]);
    assert!(!clean);
    let mut fs2: StrMap<FileStatus> = StrMap::new();
    fs2.insert("a.ftd".to_string(), FileStatus::Unchanged);
    let (lines, clean) = print_file_status(&smap(&[("a.ftd", "1")]), &fs2);
    assert!(lines.is_empty());
    assert!(clean);
}

#[test]
fn track_status_report() {
    let mut inner: StrMap<TrackStatus> = StrMap::new();
    inner.insert("b.ftd".to_string(), TrackStatus::Outofdate { days: "3".to_string() });
    inner.insert("c.ftd".to_string(), TrackStatus::Uptodate);
    let mut outer: StrMap<StrMap<TrackStatus>> = StrMap::new();
    outer.insert("a.ftd".to_string(), inner);
    let (lines, clean) = print_track_status(&outer);
    assert_eq!(lines, vec![
        format!("{:?}: a.ftd -> b.ftd", TrackStatus::Outofdate { days: "3".to_string() }),
        "Uptodate: a.ftd -> c.ftd".to_string(),
    ]);
    assert!(!clean);
    let (lines, clean) = print_track_status(&StrMap::new());
    assert!(lines.is_empty() && clean);
}

#[test]
fn clean_tree_report() {
    let snapshots = smap(&[("a.ftd", "1")]);
    let mut fs: StrMap<FileStatus> = StrMap::new();
    fs.insert("a.ftd".to_string(), FileStatus::Unchanged);
    let (lines, clean) = status_report(&snapshots, &fs, &StrMap::new());
    assert_eq!(lines, vec!["Nothing to sync, clean working tree"]);
    assert!(clean);
}

#[test]
fn tracked_tree_report() {
    let snapshots = smap(&[("a.ftd", "1")]);
    let mut fs: StrMap<FileStatus> = StrMap::new();
    fs.insert("a.ftd".to_string(), FileStatus::Unchanged);
    let mut inner: StrMap<TrackStatus> = StrMap::new();
    inner.insert("b.ftd".to_string(), TrackStatus::NeverMarked);
    let mut outer: StrMap<StrMap<TrackStatus>> = StrMap::new();
    outer.insert("a.ftd".to_string(), inner);
    let (lines, clean) = status_report(&snapshots, &fs, &outer);
    assert_eq!(lines, vec!["NeverMarked: a.ftd -> b.ftd"]);
    assert!(!clean);
}

#[test]
fn dirty_tree_report_skips_tracks() {
    let snapshots = smap(&[("a.ftd", "1")]);
    let mut fs: StrMap<FileStatus> = StrMap::new();
    fs.insert("a.ftd".to_string(), FileStatus::Modified);
    let mut inner: StrMap<TrackStatus> = StrMap::new();
    inner.insert("b.ftd".to_string(), TrackStatus::NeverMarked);
    let mut outer: StrMap<StrMap<TrackStatus>> = StrMap::new();
    outer.insert("a.ftd".to_string(), inner);
    let (lines, clean) = status_report(&snapshots, &fs, &outer);
    assert_eq!(lines, vec!["Modified: a.ftd"]);
    assert!(!clean);
}

#[test]
fn track_status_debug_escapes() {
    let t = TrackStatus::Outofdate { days: "a\"b".to_string() };
    assert_eq!(track_status_debug(&t), format!("{:?}", t));
    let t = TrackStatus::Outofdate { days: "12".to_string() };
    assert_eq!(track_status_debug(&t), "Outofdate { days: \"12\" }");
}
