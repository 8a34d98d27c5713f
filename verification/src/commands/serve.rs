//! Serving a package: which dependencies a page may draw on, which package
//! a requested path belongs to, and where a requested file lies.
use vstd::prelude::*;
use itertools::Itertools;
use crate::config::{Config, Dependency, Package};
use crate::text::{chars_of, chars_eq, chars_split, chars_replace, chars_starts_with, chars_strip_prefix, replace, split_char, starts_with, string_of, strip_prefix, views};
use crate::paths::{join, path_join};

verus! {

/// The dependencies in order, keeping only the first of each package name.
pub open spec fn first_by_name(s: Seq<Dependency>) -> Seq<Dependency>
    decreases s.len(),
{
    if s.len() == 0 {
        Seq::empty()
    } else {
        let prev = first_by_name(s.drop_last());
        if exists|j: int| 0 <= j < s.len() - 1 && (#[trigger] s[j]).package.name@ == s.last().package.name@ {
            prev
        } else {
            prev.push(s.last())
        }
    }
}

/// `Itertools::unique_by` keyed by the package name: the contract claims
/// the result keeps, in order, the first dependency of each package name.
#[verifier::external_body]
fn unique_by_package_name(deps: Vec<Dependency>) -> (r: Vec<Dependency>)
    ensures
        r@ == first_by_name(deps@),
{
    deps.into_iter().unique_by(|dep| dep.package.name.clone()).collect()
}

/// The dependencies a page may use: those of the original package first
/// when the package is a translation, then the package's own; each list
/// with one dependency per package name.
pub fn dependencies_to_serve(original_deps: Option<Vec<Dependency>>, own_deps: Vec<Dependency>) -> (r: Vec<Dependency>)
    ensures
        r@ == match original_deps {
            Some(o) => first_by_name(o@) + first_by_name(own_deps@),
            None => first_by_name(own_deps@),
        },
{
    match original_deps {
        Some(o) => {
            let mut deps = unique_by_package_name(o);
            let mut own = unique_by_package_name(own_deps);
            deps.append(&mut own);
            deps
        },
        None => unique_by_package_name(own_deps),
    }
}

/// `-/` marks taken out of a requested path.
pub open spec fn without_dash_marks(path: Seq<char>) -> Seq<char> {
    replace(path, seq!['-', '/'], Seq::empty())
}

pub fn strip_dash_marks(path: &str) -> (r: String)
    ensures
        r@ == without_dash_marks(path@),
{
    let dash = vec!['-', '/'];
    assert(dash@ =~= seq!['-', '/']);
    let empty: Vec<char> = Vec::new();
    let r = chars_replace(chars_of(path).as_slice(), dash.as_slice(), empty.as_slice());
    string_of(r.as_slice())
}

/// The index of the first of the first `n` dependencies whose package name
/// starts `file_path`.
pub open spec fn first_dep_for(deps: Seq<Dependency>, file_path: Seq<char>, n: int) -> Option<int>
    decreases n,
{
    if n <= 0 {
        None
    } else {
        match first_dep_for(deps, file_path, n - 1) {
            Some(i) => Some(i),
            None => if starts_with(file_path, deps[n - 1].package.name@) {
                Some(n - 1)
            } else {
                None
            },
        }
    }
}

/// The package a requested file belongs to: the first dependency whose
/// name starts the path, or else the package itself.
pub fn find_dep_package<'a>(config: &'a Config, dep: &'a [Dependency], file_path: &str) -> (r: &'a Package)
    ensures
        *r == match first_dep_for(dep@, file_path@, dep@.len() as int) {
            Some(i) => dep@[i].package,
            None => config.package,
        },
        forall|i: int| 0 <= i < dep@.len() && starts_with(file_path@, (#[trigger] dep@[i]).package.name@) && (forall|
            j: int,
        | 0 <= j < i ==> !starts_with(file_path@, dep@[j].package.name@)) ==> *r == dep@[i].package,
        (forall|j: int| 0 <= j < dep@.len() ==> !starts_with(file_path@, (#[trigger] dep@[j]).package.name@)) ==> *r
            == config.package,
{
    let fp = chars_of(file_path);
    let mut i: usize = 0;
    while i < dep.len()
        invariant
            i <= dep@.len(),
            fp@ == file_path@,
            first_dep_for(dep@, file_path@, i as int) is None,
        decreases dep@.len() - i,
    {
        let name = chars_of(dep[i].package.name.as_str());
        if chars_starts_with(fp.as_slice(), name.as_slice()) {
            proof {
                lemma_first_dep_stays(dep@, file_path@, i + 1, dep@.len() as int);
                assert forall|k: int| 0 <= k < dep@.len() && starts_with(file_path@, (#[trigger] dep@[k]).package.name@)
                    && (forall|j: int| 0 <= j < k ==> !starts_with(file_path@, dep@[j].package.name@)) implies
                    first_dep_for(dep@, file_path@, dep@.len() as int) == Some(k) by {
                    lemma_first_matching_dep(dep@, file_path@, k);
                }
            }
            return &dep[i].package;
        }
        i = i + 1;
    }
    proof {
        assert forall|k: int| 0 <= k < dep@.len() && starts_with(file_path@, (#[trigger] dep@[k]).package.name@) && (
        forall|j: int| 0 <= j < k ==> !starts_with(file_path@, dep@[j].package.name@)) implies first_dep_for(
            dep@,
            file_path@,
            dep@.len() as int,
        ) == Some(k) by {
            lemma_first_matching_dep(dep@, file_path@, k);
        }
    }
    &config.package
}

/// A path is served from the first dependency whose package name starts
/// it, whatever comes after that dependency.
pub proof fn lemma_first_matching_dep(deps: Seq<Dependency>, file_path: Seq<char>, i: int)
    requires
        0 <= i < deps.len(),
        starts_with(file_path, deps[i].package.name@),
        forall|j: int| 0 <= j < i ==> !starts_with(file_path, (#[trigger] deps[j]).package.name@),
    ensures
        first_dep_for(deps, file_path, deps.len() as int) == Some(i),
{
    lemma_no_matching_dep(deps, file_path, i);
    assert(first_dep_for(deps, file_path, i + 1) == Some(i));
    lemma_first_dep_stays(deps, file_path, i + 1, deps.len() as int);
}

/// When no dependency's package name starts the path, no dependency is
/// chosen.
pub proof fn lemma_no_matching_dep(deps: Seq<Dependency>, file_path: Seq<char>, n: int)
    requires
        0 <= n <= deps.len(),
        forall|j: int| 0 <= j < n ==> !starts_with(file_path, (#[trigger] deps[j]).package.name@),
    ensures
        first_dep_for(deps, file_path, n) is None,
    decreases n,
{
    if n > 0 {
        lemma_no_matching_dep(deps, file_path, n - 1);
        assert(!starts_with(file_path, deps[n - 1].package.name@));
    }
}

/// Once found, the first matching dependency stays the first.
pub proof fn lemma_first_dep_stays(deps: Seq<Dependency>, file_path: Seq<char>, m: int, n: int)
    requires
        0 <= m <= n,
        first_dep_for(deps, file_path, m) is Some,
    ensures
        first_dep_for(deps, file_path, n) == first_dep_for(deps, file_path, m),
    decreases n - m,
{
    if m < n {
        lemma_first_dep_stays(deps, file_path, m, n - 1);
    }
}

/// Serving a `-/` path never asks for the part after the package name
/// unless it follows the name and a `/`.
pub open spec fn dash_path_servable(new_path: Seq<char>, package_name: Seq<char>) -> bool {
    starts_with(new_path, package_name) ==> starts_with(new_path, package_name + seq!['/'])
}

/// Where a `-/` request's file lies: inside the package for a path that
/// starts with the package's name (and a `/`), under `.packages` otherwise.
pub open spec fn dash_file_path_spec(new_path: Seq<char>, package_name: Seq<char>) -> Seq<char> {
    if starts_with(new_path, package_name) {
        path_join(Seq::empty(), strip_prefix(new_path, package_name + seq!['/'])->0)
    } else {
        path_join(".packages"@, new_path)
    }
}

/// The file that a `-/` request names, once its `-/` marks are gone.
pub fn dash_file_path(new_path: &str, package_name: &str) -> (r: String)
    requires
        dash_path_servable(new_path@, package_name@),
    ensures
        r@ == dash_file_path_spec(new_path@, package_name@),
{
    let np = chars_of(new_path);
    let name = chars_of(package_name);
    if chars_starts_with(np.as_slice(), name.as_slice()) {
        let mut prefix = chars_of(package_name);
        prefix.push('/');
        assert(prefix@ =~= package_name@ + seq!['/']);
        proof {
            reveal_strlit("");
            assert(""@ =~= Seq::<char>::empty());
        }
        match chars_strip_prefix(np.as_slice(), prefix.as_slice()) {
            Some(rest) => join("", string_of(rest.as_slice()).as_str()),
            None => vstd::pervasive::unreached(),
        }
    } else {
        join(".packages", new_path)
    }
}

/// A `-/` request for a file of the package itself is served from the
/// rest of its path, relative to the package root; any other is served
/// from the `.packages` folder.
pub proof fn lemma_dash_file_path(new_path: Seq<char>, package_name: Seq<char>)
    ensures
        starts_with(new_path, package_name + seq!['/']) ==> dash_file_path_spec(new_path, package_name)
            == new_path.skip(package_name.len() + 1int),
        !starts_with(new_path, package_name) && (new_path.len() == 0 || new_path[0] != '/')
            ==> dash_file_path_spec(new_path, package_name) == ".packages/"@ + new_path,
{
    reveal_strlit(".packages");
    reveal_strlit(".packages/");
    if starts_with(new_path, package_name + seq!['/']) {
        let pre = package_name + seq!['/'];
        assert(starts_with(new_path, package_name)) by {
            assert forall|i: int| 0 <= i < package_name.len() implies new_path[i] == package_name[i] by {
                assert(pre[i] == package_name[i]);
            }
            assert(new_path.take(package_name.len() as int) =~= package_name) by {
                assert(new_path.take(pre.len() as int) == pre);
                assert forall|i: int| 0 <= i < package_name.len() implies new_path.take(
                    package_name.len() as int,
                )[i] == package_name[i] by {
                    assert(new_path.take(pre.len() as int)[i] == pre[i]);
                }
            }
        }
        let rest = strip_prefix(new_path, pre)->0;
        assert(rest == new_path.skip(pre.len() as int));
        assert(Seq::<char>::empty() + rest =~= rest);
    }
    if !starts_with(new_path, package_name) && (new_path.len() == 0 || new_path[0] != '/') {
        assert(".packages/"@ + new_path =~= ".packages"@ + seq!['/'] + new_path);
    }
}

/// Where a request goes.
#[derive(Debug)]
pub enum Route {
    /// A `-/` request, for a package's or a dependency's file.
    Dash,
    /// The site icon.
    Favicon,
    /// A page, by its path.
    Ftd(String),
}

/// The `/`-separated segments after the first are all empty or `.`, so
/// that the path has no component after its first.
pub open spec fn only_first_component(segs: Seq<Seq<char>>) -> bool {
    forall|i: int| 1 <= i < segs.len() ==> (#[trigger] segs[i]).len() == 0 || segs[i] == seq!['.']
}

/// Where a request for `path` goes, matching whole path components as
/// `std::path::Path` does: a path whose first component is `-` is a `-/`
/// request; one whose only component is `favicon.ico` is the icon; the empty
/// path is the `index` page; any other path is a page.
pub open spec fn route_spec(path: Seq<char>, r: Route) -> bool {
    let segs = split_char(path, '/');
    if segs[0] == seq!['-'] {
        r is Dash
    } else if segs[0] == "favicon.ico"@ && only_first_component(segs) {
        r is Favicon
    } else if path.len() == 0 {
        r matches Route::Ftd(p) && p@ == "index"@
    } else {
        r matches Route::Ftd(p) && p@ == path
    }
}

/// A request for `-`, or for a path that begins with `-/`, is a dash
/// request.
pub proof fn lemma_route_dash(path: Seq<char>, r: Route)
    requires
        route_spec(path, r),
        path.len() >= 1,
        path[0] == '-',
        path.len() == 1 || path[1] == '/',
    ensures
        r is Dash,
{
    crate::text::lemma_split_first(path, '/');
    if path.len() == 1 {
        assert(path == seq!['-']);
    } else {
        assert(path[1] == '/');
        assert(path.take(1) =~= seq!['-']);
    }
}

/// A request for `favicon.ico` is for the icon, and the empty path is the
/// `index` page.
pub proof fn lemma_route_favicon_and_index(r: Route, q: Route)
    requires
        route_spec("favicon.ico"@, r),
        route_spec(Seq::<char>::empty(), q),
    ensures
        r is Favicon,
        q matches Route::Ftd(p) && p@ == "index"@,
{
    reveal_strlit("favicon.ico");
    let f = "favicon.ico"@;
    crate::text::lemma_split_first(f, '/');
    assert forall|j: int| 0 <= j < f.len() implies f[j] != '/' by {}
    assert(split_char(f, '/') == seq![f]);
    assert(split_char(f, '/')[0] != seq!['-']);
    assert(only_first_component(split_char(f, '/')));
    crate::text::lemma_split_first(Seq::<char>::empty(), '/');
    assert(split_char(Seq::<char>::empty(), '/')[0] != seq!['-']);
    assert(split_char(Seq::<char>::empty(), '/')[0] != "favicon.ico"@);
}

/// A request whose first path component (all of it before the first `/`,
/// given as `first`) is neither `-` nor `favicon.ico` is for the page of
/// that very path.
pub proof fn lemma_route_page(path: Seq<char>, first: Seq<char>, r: Route)
    requires
        route_spec(path, r),
        path.len() > 0,
        first != seq!['-'],
        first != "favicon.ico"@,
        (forall|j: int| 0 <= j < path.len() ==> path[j] != '/') && first == path || exists|i: int| #![trigger path[i]]
            0 <= i < path.len() && path[i] == '/' && (forall|j: int| 0 <= j < i ==> path[j] != '/') && first
            == path.take(i),
    ensures
        r matches Route::Ftd(p) && p@ == path,
{
    crate::text::lemma_split_first(path, '/');
    if forall|j: int| 0 <= j < path.len() ==> path[j] != '/' {
        assert(split_char(path, '/')[0] == path);
    } else {
        let i = choose|i: int| #![trigger path[i]] 0 <= i < path.len() && path[i] == '/' && (forall|j: int| 0 <= j < i
            ==> path[j] != '/') && first == path.take(i);
        assert(split_char(path, '/')[0] == path.take(i));
    }
}

/// Where a request for `path` goes.
pub fn route(path: &str) -> (r: Route)
    ensures
        route_spec(path@, r),
{
    let segs = chars_split(chars_of(path).as_slice(), '/');
    let dash = vec!['-'];
    assert(dash@ =~= seq!['-']);
    if chars_eq(segs[0].as_slice(), dash.as_slice()) {
        return Route::Dash;
    }
    let favicon = chars_of("favicon.ico");
    if chars_eq(segs[0].as_slice(), favicon.as_slice()) {
        let mut i: usize = 1;
        let mut only = true;
        while i < segs.len()
            invariant
                1 <= i <= segs@.len(),
                only == forall|x: int| 1 <= x < i ==> (#[trigger] views(segs@)[x]).len() == 0
                    || views(segs@)[x] == seq!['.'],
            decreases segs@.len() - i,
        {
            let seg = &segs[i];
            assert(views(segs@)[i as int] == seg@);
            if !(seg.len() == 0 || (seg.len() == 1 && seg[0] == '.')) {
                only = false;
            }
            proof {
                if seg@.len() == 1 && seg@[0] == '.' {
                    assert(seg@ =~= seq!['.']);
                }
            }
            i = i + 1;
        }
        if only {
            return Route::Favicon;
        }
    }
    if path.is_empty() {
        Route::Ftd(String::from_str("index"))
    } else {
        Route::Ftd(String::from_str(path))
    }
}

/// Every dependency kept for serving comes from the input.
proof fn lemma_first_by_name_from(s: Seq<Dependency>)
    ensures
        forall|j: int| 0 <= j < first_by_name(s).len() ==> s.contains(#[trigger] first_by_name(s)[j]),
    decreases s.len(),
{
    if s.len() > 0 {
        let t = s.drop_last();
        lemma_first_by_name_from(t);
        let prev = first_by_name(t);
        let f = first_by_name(s);
        assert forall|j: int| 0 <= j < f.len() implies s.contains(#[trigger] f[j]) by {
            if j < prev.len() {
                assert(f[j] == prev[j]);
                let i = choose|i: int| 0 <= i < t.len() && t[i] == prev[j];
                assert(s[i] == t[i]);
            } else {
                assert(f[j] == s[s.len() - 1]);
            }
        }
    }
}

/// No two dependencies kept for serving share a package name.
proof fn lemma_first_by_name_distinct(s: Seq<Dependency>)
    ensures
        forall|i: int, j: int| 0 <= i < j < first_by_name(s).len() ==> (#[trigger] first_by_name(s)[i]).package.name@
            != (#[trigger] first_by_name(s)[j]).package.name@,
    decreases s.len(),
{
    if s.len() > 0 {
        let t = s.drop_last();
        lemma_first_by_name_distinct(t);
        lemma_first_by_name_from(t);
        let prev = first_by_name(t);
        let f = first_by_name(s);
        let last = s.last();
        if !exists|j: int| 0 <= j < s.len() - 1 && (#[trigger] s[j]).package.name@ == last.package.name@ {
            assert forall|i: int, j: int| 0 <= i < j < f.len() implies (#[trigger] f[i]).package.name@
                != (#[trigger] f[j]).package.name@ by {
                if j == f.len() - 1 {
                    assert(t.contains(prev[i]));
                    let x = choose|x: int| 0 <= x < t.len() && t[x] == prev[i];
                    assert(s[x] == t[x]);
                } else {
                    assert(f[i] == prev[i] && f[j] == prev[j]);
                }
            }
        }
    }
}

/// Every package named in the input is kept for serving.
proof fn lemma_first_by_name_covers(s: Seq<Dependency>)
    ensures
        forall|i: int| 0 <= i < s.len() ==> exists|j: int| 0 <= j < first_by_name(s).len() && (
            #[trigger] first_by_name(s)[j]).package.name@ == (#[trigger] s[i]).package.name@,
    decreases s.len(),
{
    if s.len() > 0 {
        let t = s.drop_last();
        lemma_first_by_name_covers(t);
        let prev = first_by_name(t);
        let f = first_by_name(s);
        let last = s.last();
        assert forall|i: int| 0 <= i < s.len() implies exists|j: int| 0 <= j < f.len() && (
            #[trigger] f[j]).package.name@ == (#[trigger] s[i]).package.name@ by {
            if i < s.len() - 1 {
                assert(t[i] == s[i]);
                let j = choose|j: int| 0 <= j < prev.len() && (#[trigger] prev[j]).package.name@ == (
                #[trigger] t[i]).package.name@;
                assert(f[j] == prev[j]);
            } else if exists|x: int| 0 <= x < s.len() - 1 && (#[trigger] s[x]).package.name@ == last.package.name@ {
                let x = choose|x: int| 0 <= x < s.len() - 1 && (#[trigger] s[x]).package.name@ == last.package.name@;
                assert(t[x] == s[x]);
                let j = choose|j: int| 0 <= j < prev.len() && (#[trigger] prev[j]).package.name@ == (
                #[trigger] t[x]).package.name@;
                assert(f[j] == prev[j]);
            } else {
                assert(f[f.len() - 1] == s[i]);
            }
        }
    }
}

/// The dependencies kept for serving name each package once, every package
/// named among the input is kept, and each kept dependency comes from the
/// input.
pub proof fn lemma_first_by_name(s: Seq<Dependency>)
    ensures
        forall|i: int, j: int| 0 <= i < j < first_by_name(s).len() ==> (#[trigger] first_by_name(s)[i]).package.name@
            != (#[trigger] first_by_name(s)[j]).package.name@,
        forall|i: int| 0 <= i < s.len() ==> exists|j: int| 0 <= j < first_by_name(s).len() && (
            #[trigger] first_by_name(s)[j]).package.name@ == (#[trigger] s[i]).package.name@,
        forall|j: int| 0 <= j < first_by_name(s).len() ==> s.contains(#[trigger] first_by_name(s)[j]),
{
    lemma_first_by_name_from(s);
    lemma_first_by_name_distinct(s);
    lemma_first_by_name_covers(s);
}

} // verus!
