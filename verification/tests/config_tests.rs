use fpm::config::{find_package_root_step, fpm_ftd_path, ignore_override_patterns, Config, Dependency, Font, Package, PackageTemp, RootSearch};
use fpm::error::Error;
use fpm::strmap::StrMap;

fn config(root: &str) -> Config {
    Config {
        package: Package::new("pkg"),
        root: root.to_string(),
        original_directory: root.to_string(),
        fonts: vec![],
        ignored: vec![],
    }
}

fn dep(name: &str, alias: Option<&str>) -> Dependency {
    Dependency { package: Package::new(name), alias: alias.map(|a| a.to_string()), aliases: StrMap::new() }
}

#[test]
fn directories_under_root() {
    let c = config("/home/u/pkg");
    assert_eq!(c.build_dir(), "/home/u/pkg/.build");
    assert_eq!(c.history_dir(), "/home/u/pkg/.history");
    assert_eq!(c.latest_ftd(), "/home/u/pkg/.history/.latest.ftd");
    assert_eq!(c.track_dir(), "/home/u/pkg/.tracks");
    assert_eq!(config("/r/").build_dir(), "/r/.build");
    assert_eq!(config("").build_dir(), ".build");
}

#[test]
fn translation_original_path() {
    let mut c = config("/r");
    assert!(!c.is_translation_package());
    match c.original_path() {
        Err(Error::UsageError { message }) => assert_eq!(message, "This package is not a translation package"),
        other => panic!("unexpected {:?}", other),
    }
    c.package.translation_of = Box::new(Some(Package::new("orig.com")));
    assert!(c.is_translation_package());
    assert_eq!(c.original_path().unwrap(), "/r/.packages/orig.com");
}

#[test]
fn font_style() {
    let mut c = config("/r");
    assert_eq!(c.get_font_style(), "");
    c.fonts = vec![Font { html: "@font-face a".to_string() }, Font { html: "@font-face b".to_string() }];
    assert_eq!(c.get_font_style(), "<style>\n@font-face a\n@font-face b</style>");
}

#[test]
fn canonical_url() {
    let mut p = Package::new("pkg");
    assert_eq!(p.generate_canonical_url("a/"), "");
    p.canonical_url = Some("https://x.com/".to_string());
    assert_eq!(p.generate_canonical_url("a/"), "\n<link rel=\"canonical\" href=\"https://x.com/a/\" />");
    assert_eq!(p.generate_canonical_url("FPM/"), "");
}

#[test]
fn aliases_last_wins() {
    let mut p = Package::new("pkg");
    p.dependencies = vec![dep("a.com", None), dep("b.com", Some("lib")), dep("c.com", Some("lib"))];
    let m = p.aliases().unwrap();
    assert_eq!(m.len(), 2);
    assert_eq!(m.get("a.com").unwrap().name, "a.com");
    assert_eq!(m.get("lib").unwrap().name, "c.com");
    assert!(m.get("b.com").is_none());
    assert_eq!(m.key_at(0), "a.com");
    assert_eq!(m.key_at(1), "lib");
}

#[test]
fn dependency_aliases_merge() {
    let mut d1 = dep("a.com", None);
    d1.aliases.insert("x".to_string(), "a.com/x".to_string());
    d1.aliases.insert("y".to_string(), "a.com/y".to_string());
    let mut d2 = dep("b.com", None);
    d2.aliases.insert("x".to_string(), "b.com/x".to_string());
    let mut p = Package::new("pkg");
    p.dependencies = vec![d1, d2];
    let m = p.dependency_aliases();
    assert_eq!(m.len(), 2);
    assert_eq!(m.get("x").unwrap(), "b.com/x");
    assert_eq!(m.get("y").unwrap(), "a.com/y");
}

#[test]
fn package_from_record() {
    let t = PackageTemp {
        name: "pkg".to_string(),
        translation_of: Some("orig".to_string()),
        translations: vec!["hi".to_string(), "fr".to_string()],
        language: Some("en".to_string()),
        about: None,
        zip: Some("z".to_string()),
        canonical_url: None,
        main_aliases: Some(" a , b,c ".to_string()),
    };
    let p = t.into_package();
    assert_eq!(p.name, "pkg");
    assert_eq!(p.translation_of.as_ref().as_ref().unwrap().name, "orig");
    assert_eq!(p.translations.len(), 2);
    assert_eq!(p.translations[1].name, "fr");
    assert_eq!(p.language.as_deref(), Some("en"));
    assert_eq!(p.zip.as_deref(), Some("z"));
    assert_eq!(p.interface_aliases, vec!["a", "b", "c"]);
    let q = PackageTemp { main_aliases: None, translation_of: None, ..PackageTemp {
        name: "q".to_string(), translation_of: None, translations: vec![], language: None, about: None,
        zip: None, canonical_url: None, main_aliases: None } }.into_package();
    assert!(q.interface_aliases.is_empty());
    assert!(q.translation_of.is_none());
}

#[test]
fn package_root_search() {
    assert_eq!(fpm_ftd_path("/a/b"), "/a/b/FPM.ftd");
    match find_package_root_step("/a/b", false) {
        RootSearch::Continue(p) => assert_eq!(p, "/a"),
        other => panic!("unexpected {:?}", other),
    }
    match find_package_root_step("/a/b", true) {
        RootSearch::Found(p) => assert_eq!(p, "/a/b"),
        other => panic!("unexpected {:?}", other),
    }
    assert!(matches!(find_package_root_step("/", false), RootSearch::NotFound));
    assert_eq!(ignore_override_patterns(&vec!["x/*".to_string()]), vec!["!x/*"]);
}
