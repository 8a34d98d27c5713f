use fpm::commands::serve::{dash_file_path, dependencies_to_serve, find_dep_package, route, strip_dash_marks, Route};
use fpm::config::{Config, Dependency, Package};
use fpm::strmap::StrMap;

fn dep(name: &str, alias: &str) -> Dependency {
    Dependency { package: Package::new(name), alias: Some(alias.to_string()), aliases: StrMap::new() }
}

fn names(v: &[Dependency]) -> Vec<(String, String)> {
    v.iter().map(|d| (d.package.name.clone(), d.alias.clone().unwrap_or_default())).collect()
}

#[test]
fn unique_dependencies() {
    let own = vec![dep("a.com", "1"), dep("b.com", "2"), dep("a.com", "3")];
    let r = dependencies_to_serve(None, own);
    assert_eq!(names(&r), vec![("a.com".to_string(), "1".to_string()), ("b.com".to_string(), "2".to_string())]);
    let orig = vec![dep("b.com", "o1"), dep("b.com", "o2")];
    let own = vec![dep("b.com", "4")];
    let r = dependencies_to_serve(Some(orig), own);
    assert_eq!(names(&r), vec![("b.com".to_string(), "o1".to_string()), ("b.com".to_string(), "4".to_string())]);
}

#[test]
fn dash_paths() {
    assert_eq!(strip_dash_marks("-/a.com/-/x.png"), "a.com/x.png");
    assert_eq!(dash_file_path("pkg/static/x.png", "pkg"), "static/x.png");
    assert_eq!(dash_file_path("other.com/x.png", "pkg"), ".packages/other.com/x.png");
}

#[test]
fn dependency_of_path() {
    let config = Config {
        package: Package::new("main.com"),
        root: "/r".to_string(),
        original_directory: "/r".to_string(),
        fonts: vec![],
        ignored: vec![],
    };
    let deps = vec![dep("lib.com", "l"), dep("lib.com/sub", "s")];
    assert_eq!(find_dep_package(&config, &deps, "lib.com/sub/x").name, "lib.com");
    assert_eq!(find_dep_package(&config, &deps, "index").name, "main.com");
}

#[test]
fn routes() {
    assert!(matches!(route("-/pkg/x.png"), Route::Dash));
    assert!(matches!(route("-"), Route::Dash));
    assert!(matches!(route("favicon.ico"), Route::Favicon));
    assert!(matches!(route("favicon.ico/./"), Route::Favicon));
    match route("") {
        Route::Ftd(p) => assert_eq!(p, "index"),
        r => panic!("{:?}", r),
    }
    match route("-x/a") {
        Route::Ftd(p) => assert_eq!(p, "-x/a"),
        r => panic!("{:?}", r),
    }
    match route("favicon.ico/a") {
        Route::Ftd(p) => assert_eq!(p, "favicon.ico/a"),
        r => panic!("{:?}", r),
    }
    // The routing agrees with std's component-wise path matching.
    for p in ["-/a", "-", "-x", "favicon.ico", "favicon.ico/", "favicon.ico/a", "a/-/b", "x"] {
        let path = std::path::Path::new(p);
        let expected_dash = path.starts_with("-/");
        let expected_icon = !expected_dash && path == std::path::Path::new("favicon.ico");
        assert_eq!(matches!(route(p), Route::Dash), expected_dash, "{}", p);
        assert_eq!(matches!(route(p), Route::Favicon), expected_icon, "{}", p);
    }
}
