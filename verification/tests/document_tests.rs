use fpm::document::{
    file_id, file_kind, make_file, package_ignore_patterns, should_be_a_file, sort_by_id,
    Document, File, FileKind, Static,
};

fn doc(id: &str) -> Document {
    Document {
        package_name: "fifthtry.github.io/pkg".to_string(),
        id: id.to_string(),
        content: "-- ftd.text: hi".to_string(),
        parent_path: "/home/u/pkg".to_string(),
    }
}

#[test]
fn ids_and_paths() {
    let f = File::Ftd(doc("blog/index.ftd"));
    assert_eq!(f.get_id(), "blog/index.ftd");
    assert_eq!(f.get_base_path(), "/home/u/pkg");
    assert_eq!(f.get_full_path(), "/home/u/pkg/blog/index.ftd");
    let st = File::Static(Static { id: "logo.png".to_string(), base_path: "/srv/".to_string() });
    assert_eq!(st.get_id(), "logo.png");
    assert_eq!(st.get_base_path(), "/srv/");
    assert_eq!(st.get_full_path(), "/srv/logo.png");
    let abs = File::Markdown(Document { id: "/etc/x.md".to_string(), ..doc("") });
    assert_eq!(abs.get_full_path(), "/etc/x.md");
}

#[test]
fn id_to_path_replaces_extension_by_separator() {
    let sep = std::path::MAIN_SEPARATOR;
    assert_eq!(doc("blog/index.ftd").id_to_path(), format!("blog/index{}", sep));
    assert_eq!(doc("a.ftd.ftd").id_to_path(), format!("a{}{}", sep, sep));
    assert_eq!(doc("readme.md").id_to_path(), "readme.md");
}

#[test]
fn id_with_package_drops_trailing_extensions() {
    assert_eq!(doc("index.ftd").id_with_package(), "fifthtry.github.io/pkg/index");
    assert_eq!(doc("x.ftd.ftd").id_with_package(), "fifthtry.github.io/pkg/x");
    assert_eq!(doc("a.ftd/b").id_with_package(), "fifthtry.github.io/pkg/a.ftd/b");
}

#[test]
fn files_sorted_by_id() {
    let files = vec![
        File::Ftd(doc("c.ftd")),
        File::Static(Static { id: "a.png".to_string(), base_path: "/p".to_string() }),
        File::Markdown(doc("b.md")),
        File::Ftd(doc("B.ftd")),
    ];
    let sorted = sort_by_id(files);
    let ids: Vec<String> = sorted.iter().map(|f| f.get_id()).collect();
    assert_eq!(ids, vec!["B.ftd", "a.png", "b.md", "c.ftd"]);
    assert!(sort_by_id(vec![]).is_empty());
}

#[test]
fn file_ids_from_canonical_paths() {
    assert_eq!(file_id("/home/u/pkg/blog/a.ftd", "/home/u/pkg"), Some("blog/a.ftd".to_string()));
    assert_eq!(file_id("/home/u/pkg/blog/a.ftd", "/home/u/pkg/"), Some("blog/a.ftd".to_string()));
    assert_eq!(file_id("/other/a.ftd", "/home/u/pkg"), None);
}

#[test]
fn kinds_by_extension() {
    assert_eq!(file_kind("a/b.ftd"), FileKind::Ftd);
    assert_eq!(file_kind("a.md"), FileKind::Markdown);
    assert_eq!(file_kind("a.ftd.png"), FileKind::Static);
    assert_eq!(file_kind("Makefile"), FileKind::Static);
    match make_file("p".to_string(), "x.md".to_string(), "/b".to_string(), "text".to_string()) {
        File::Markdown(d) => {
            assert_eq!(d.content, "text");
            assert_eq!(d.parent_path, "/b");
        }
        _ => panic!("expected markdown"),
    }
    match make_file("p".to_string(), "x.png".to_string(), "/b".to_string(), String::new()) {
        File::Static(s) => assert_eq!(s.base_path, "/b"),
        _ => panic!("expected static"),
    }
    assert_eq!(should_be_a_file("/tmp/dir"), "/tmp/dir should be a file");
}

#[test]
fn ignore_patterns() {
    let p = package_ignore_patterns(&vec!["drafts".to_string()]);
    assert_eq!(
        p,
        vec!["!.history", "!.packages", "!.tracks", "!FPM", "!rust-toolchain", "!.build", "!drafts"]
    );
}
