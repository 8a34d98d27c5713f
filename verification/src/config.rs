//! The package configuration read from `FPM.ftd`: the package, its
//! dependencies and fonts, and the directories derived from the root.
use vstd::prelude::*;
use crate::error::Error;
use crate::paths::{join, path_join};
use crate::strmap::StrMap;
use crate::text::{chars_of, chars_split, chars_trim, string_of, split_char, trim, views};

verus! {

/// A font used by the package, held as the HTML that declares it.
#[derive(Debug, Clone)]
pub struct Font {
    pub html: String,
}

impl Font {
    pub fn to_html(&self) -> (r: String)
        ensures
            r@ == self.html@,
    {
        self.html.clone()
    }
}

/// A package and what `FPM.ftd` says of it.
#[derive(Debug)]
pub struct Package {
    pub name: String,
    pub translation_of: Box<Option<Package>>,
    pub translations: Vec<Package>,
    pub language: Option<String>,
    pub about: Option<String>,
    pub zip: Option<String>,
    pub canonical_url: Option<String>,
    /// The direct dependencies of the package.
    pub dependencies: Vec<Dependency>,
    pub interface_aliases: Vec<String>,
}

/// A dependency of a package.
#[derive(Debug)]
pub struct Dependency {
    pub package: Package,
    /// The name the package is known by, when it is not its own name.
    pub alias: Option<String>,
    /// Aliases that the dependency declares.
    pub aliases: StrMap<String>,
}

/// The `fpm.package` record as `FPM.ftd` spells it, before it becomes a
/// [`Package`].
#[derive(Debug, Clone)]
pub struct PackageTemp {
    pub name: String,
    pub translation_of: Option<String>,
    pub translations: Vec<String>,
    pub language: Option<String>,
    pub about: Option<String>,
    pub zip: Option<String>,
    pub canonical_url: Option<String>,
    pub main_aliases: Option<String>,
}

/// The configuration of the package being worked on.
#[derive(Debug)]
pub struct Config {
    pub package: Package,
    /// The package root, the folder that holds `FPM.ftd`.
    pub root: String,
    /// The directory the program was started in.
    pub original_directory: String,
    /// The fonts used by the package.
    pub fonts: Vec<Font>,
    /// The override patterns of the files to leave out of builds and syncs.
    pub ignored: Vec<String>,
}

impl Package {
    /// A package that has only a name.
    pub open spec fn is_bare(&self) -> bool {
        &&& *self.translation_of is None
        &&& self.translations@.len() == 0
        &&& self.language is None
        &&& self.about is None
        &&& self.zip is None
        &&& self.canonical_url is None
        &&& self.dependencies@.len() == 0
        &&& self.interface_aliases@.len() == 0
    }

    pub fn new(name: &str) -> (p: Package)
        ensures
            p.name@ == name@,
            p.is_bare(),
    {
        Package {
            name: String::from_str(name),
            translation_of: Box::new(None),
            translations: Vec::new(),
            language: None,
            about: None,
            zip: None,
            canonical_url: None,
            dependencies: Vec::new(),
            interface_aliases: Vec::new(),
        }
    }
}

impl Package {
    /// The canonical link tag for the page at `path`: empty when the package
    /// names no canonical URL, or for the `FPM/` page.
    pub fn generate_canonical_url(&self, path: &str) -> (r: String)
        ensures
            r@ == canonical_link(self.canonical_url, path@),
    {
        match &self.canonical_url {
            Some(url) => {
                let p = chars_of(path);
                let fpm_page = chars_of("FPM/");
                if !crate::text::chars_eq(p.as_slice(), fpm_page.as_slice()) {
                    let mut r = String::from_str("\n<link rel=\"canonical\" href=\"");
                    r.append(url.as_str());
                    r.append(path);
                    r.append("\" />");
                    r
                } else {
                    String::new()
                }
            },
            None => String::new(),
        }
    }

    /// The packages of the dependencies, each under its alias, or under its
    /// own name when it has none; a later dependency with the same key
    /// replaces an earlier one.
    pub fn aliases(&self) -> (r: Result<StrMap<&Package>, Error>)
        ensures
            r matches Ok(m) && m.wf() && (forall|k: Seq<char>| #[trigger] m@.contains_key(k)
                <==> last_with_key(self.dependencies@, k, self.dependencies@.len() as int) is Some)
                && (forall|k: Seq<char>| #[trigger] m@.contains_key(k) ==> *m@[k]
                == self.dependencies@[last_with_key(
                self.dependencies@,
                k,
                self.dependencies@.len() as int,
            )->0].package),
    {
        let mut m: StrMap<&Package> = StrMap::new();
        let mut i: usize = 0;
        while i < self.dependencies.len()
            invariant
                i <= self.dependencies@.len(),
                m.wf(),
                forall|k: Seq<char>| #[trigger] m@.contains_key(k) <==> last_with_key(
                    self.dependencies@,
                    k,
                    i as int,
                ) is Some,
                forall|k: Seq<char>| #[trigger] m@.contains_key(k) ==> *m@[k]
                    == self.dependencies@[last_with_key(self.dependencies@, k, i as int)->0].package,
            decreases self.dependencies@.len() - i,
        {
            let d = &self.dependencies[i];
            let key = match &d.alias {
                Some(a) => a.clone(),
                None => d.package.name.clone(),
            };
            assert(key@ == alias_key(self.dependencies@[i as int]));
            m.insert(key, &d.package);
            i = i + 1;
        }
        Ok(m)
    }

    /// All aliases the dependencies declare; a later declaration of a name
    /// replaces an earlier one.
    pub fn dependency_aliases(&self) -> (r: StrMap<String>)
        requires
            forall|i: int| 0 <= i < self.dependencies@.len() ==> (#[trigger] self.dependencies@[i]).aliases.wf(),
        ensures
            r.wf(),
            r@ == declared_aliases(self.dependencies@),
    {
        let mut m: StrMap<String> = StrMap::new();
        let mut i: usize = 0;
        assert(declared_aliases(self.dependencies@.take(0)) =~= Map::<Seq<char>, String>::empty());
        while i < self.dependencies.len()
            invariant
                i <= self.dependencies@.len(),
                forall|x: int| 0 <= x < self.dependencies@.len() ==> (#[trigger] self.dependencies@[x]).aliases.wf(),
                m.wf(),
                m@ == declared_aliases(self.dependencies@.take(i as int)),
            decreases self.dependencies@.len() - i,
        {
            let a = &self.dependencies[i].aliases;
            assert(self.dependencies@[i as int].aliases.wf());
            let ghost before = m@;
            let mut j: usize = 0;
            proof {
                a.lemma_wf();
            }
            while j < a.len()
                invariant
                    j <= a.keys().len(),
                    a.wf(),
                    m.wf(),
                    m@ == before.union_prefer_right(prefix_map(a, j as int)),
                decreases a.keys().len() - j,
            {
                proof {
                    a.lemma_wf();
                }
                let k = a.key_at(j).clone();
                let v = a.value_at(j).clone();
                m.insert(k, v);
                proof {
                    lemma_prefix_map_step(a, j as int);
                    assert(m@ =~= before.union_prefer_right(prefix_map(a, j + 1)));
                }
                j = j + 1;
            }
            proof {
                lemma_prefix_map_full(a);
                assert(self.dependencies@.take(i + 1).drop_last() =~= self.dependencies@.take(i as int));
            }
            i = i + 1;
        }
        assert(self.dependencies@.take(self.dependencies@.len() as int) =~= self.dependencies@);
        m
    }
}

/// The key a dependency is found under.
pub open spec fn alias_key(d: Dependency) -> Seq<char> {
    match d.alias {
        Some(a) => a@,
        None => d.package.name@,
    }
}

/// The index of the last of the first `n` dependencies whose key is `k`.
pub open spec fn last_with_key(deps: Seq<Dependency>, k: Seq<char>, n: int) -> Option<int>
    decreases n,
{
    if n <= 0 {
        None
    } else if alias_key(deps[n - 1]) == k {
        Some(n - 1)
    } else {
        last_with_key(deps, k, n - 1)
    }
}

/// The aliases declared by the dependencies, later ones winning.
pub open spec fn declared_aliases(deps: Seq<Dependency>) -> Map<Seq<char>, String>
    decreases deps.len(),
{
    if deps.len() == 0 {
        Map::empty()
    } else {
        declared_aliases(deps.drop_last()).union_prefer_right(deps.last().aliases@)
    }
}

/// The map of the first `j` entries of `a`.
pub open spec fn prefix_map(a: &StrMap<String>, j: int) -> Map<Seq<char>, String> {
    Map::new(
        |k: Seq<char>| a.keys().take(j).contains(k),
        |k: Seq<char>| a.values()[a.keys().index_of(k)],
    )
}

pub proof fn lemma_prefix_map_step(a: &StrMap<String>, j: int)
    requires
        a.wf(),
        0 <= j < a.keys().len(),
    ensures
        prefix_map(a, j + 1) == prefix_map(a, j).insert(a.keys()[j], a.values()[j]),
{
    a.lemma_wf();
    a.lemma_entry(j);
    let lhs = prefix_map(a, j + 1);
    let rhs = prefix_map(a, j).insert(a.keys()[j], a.values()[j]);
    assert forall|k: Seq<char>| #[trigger] lhs.dom().contains(k) <==> rhs.dom().contains(k) by {
        if a.keys().take(j + 1).contains(k) {
            let x = choose|x: int| 0 <= x < j + 1 && #[trigger] a.keys().take(j + 1)[x] == k;
            if x < j {
                assert(a.keys().take(j)[x] == k);
            }
        }
        if a.keys().take(j).contains(k) {
            let x = choose|x: int| 0 <= x < j && #[trigger] a.keys().take(j)[x] == k;
            assert(a.keys().take(j + 1)[x] == k);
        }
        if k == a.keys()[j] {
            assert(a.keys().take(j + 1)[j] == k);
        }
    }
    assert(lhs.dom() =~= rhs.dom());
    assert forall|k: Seq<char>| #[trigger] lhs.contains_key(k) implies lhs[k] == rhs[k] by {
        if k != a.keys()[j] {
            assert(prefix_map(a, j).contains_key(k));
        }
    }
    assert(lhs =~= rhs);
}

pub proof fn lemma_prefix_map_full(a: &StrMap<String>)
    requires
        a.wf(),
    ensures
        prefix_map(a, a.keys().len() as int) == a@,
{
    assert(a.keys().take(a.keys().len() as int) =~= a.keys());
    assert(prefix_map(a, a.keys().len() as int) =~= a@);
}

/// The canonical link tag for `path`.
pub open spec fn canonical_link(canonical_url: Option<String>, path: Seq<char>) -> Seq<char> {
    match canonical_url {
        Some(url) => if path != "FPM/"@ {
            "\n<link rel=\"canonical\" href=\""@ + url@ + path + "\" />"@
        } else {
            Seq::<char>::empty()
        },
        None => Seq::<char>::empty(),
    }
}

impl PackageTemp {
    /// The package this record describes, with no dependencies yet.
    pub fn into_package(self) -> (p: Package)
        ensures
            p.name == self.name,
            match self.translation_of {
                Some(t) => *p.translation_of matches Some(o) && o.name@ == t@ && o.is_bare(),
                None => *p.translation_of is None,
            },
            p.translations@.len() == self.translations@.len(),
            forall|i: int| 0 <= i < self.translations@.len() ==> (#[trigger] p.translations@[i]).name@
                == self.translations@[i]@ && p.translations@[i].is_bare(),
            p.language == self.language,
            p.about == self.about,
            p.zip == self.zip,
            p.canonical_url == self.canonical_url,
            p.dependencies@.len() == 0,
            crate::document::string_views(p.interface_aliases@) == interface_aliases_of(self.main_aliases),
    {
        let translation_of = match &self.translation_of {
            Some(v) => Some(Package::new(v.as_str())),
            None => None,
        };
        let mut translations: Vec<Package> = Vec::new();
        let mut i: usize = 0;
        while i < self.translations.len()
            invariant
                i <= self.translations@.len(),
                translations@.len() == i,
                forall|j: int| 0 <= j < i ==> (#[trigger] translations@[j]).name@ == self.translations@[j]@
                    && translations@[j].is_bare(),
            decreases self.translations@.len() - i,
        {
            translations.push(Package::new(self.translations[i].as_str()));
            i = i + 1;
        }
        let interface_aliases = match &self.main_aliases {
            Some(a) => {
                let parts = chars_split(chars_of(a.as_str()).as_slice(), ',');
                let mut out: Vec<String> = Vec::new();
                let mut j: usize = 0;
                while j < parts.len()
                    invariant
                        j <= parts@.len(),
                        views(parts@) == split_char(a@, ','),
                        crate::document::string_views(out@) == Seq::new(
                            j as nat,
                            |x: int| trim(split_char(a@, ',')[x]),
                        ),
                    decreases parts@.len() - j,
                {
                    let t = chars_trim(parts[j].as_slice());
                    assert(parts@[j as int]@ == split_char(a@, ',')[j as int]);
                    let ghost before = out@;
                    out.push(string_of(t.as_slice()));
                    assert(crate::document::string_views(out@) =~= crate::document::string_views(before).push(t@));
                    j = j + 1;
                    assert(crate::document::string_views(out@) =~= Seq::new(
                        j as nat,
                        |x: int| trim(split_char(a@, ',')[x]),
                    ));
                }
                out
            },
            None => Vec::new(),
        };
        assert(crate::document::string_views(interface_aliases@) =~= interface_aliases_of(self.main_aliases));
        Package {
            name: self.name,
            translation_of: Box::new(translation_of),
            translations,
            language: self.language,
            about: self.about,
            zip: self.zip,
            canonical_url: self.canonical_url,
            dependencies: Vec::new(),
            interface_aliases,
        }
    }
}

/// The interface aliases a `main` value names: its comma-separated parts,
/// each trimmed.
pub open spec fn interface_aliases_of(main_aliases: Option<String>) -> Seq<Seq<char>> {
    match main_aliases {
        Some(a) => Seq::new(split_char(a@, ',').len(), |x: int| trim(split_char(a@, ',')[x])),
        None => Seq::empty(),
    }
}

impl Config {
    pub fn build_dir(&self) -> (r: String)
        ensures
            r@ == path_join(self.root@, ".build"@),
    {
        join(self.root.as_str(), ".build")
    }

    pub fn history_dir(&self) -> (r: String)
        ensures
            r@ == path_join(self.root@, ".history"@),
    {
        join(self.root.as_str(), ".history")
    }

    pub fn latest_ftd(&self) -> (r: String)
        ensures
            r@ == path_join(self.root@, ".history/.latest.ftd"@),
    {
        join(self.root.as_str(), ".history/.latest.ftd")
    }

    pub fn track_dir(&self) -> (r: String)
        ensures
            r@ == path_join(self.root@, ".tracks"@),
    {
        join(self.root.as_str(), ".tracks")
    }

    pub fn is_translation_package(&self) -> (r: bool)
        ensures
            r == (*self.package.translation_of is Some),
    {
        match &*self.package.translation_of {
            Some(_) => true,
            None => false,
        }
    }

    /// Where the original of a translation package is kept:
    /// `<root>/.packages/<original's name>`.
    pub fn original_path(&self) -> (r: Result<String, Error>)
        ensures
            match *self.package.translation_of {
                Some(o) => r matches Ok(p) && p@ == path_join(
                    path_join(self.root@, ".packages"@),
                    o.name@,
                ),
                None => r matches Err(Error::UsageError { message }) && message@
                    == "This package is not a translation package"@,
            },
    {
        match &*self.package.translation_of {
            Some(o) => {
                let packages = join(self.root.as_str(), ".packages");
                Ok(join(packages.as_str(), o.name.as_str()))
            },
            None => Err(
                Error::UsageError {
                    message: String::from_str("This package is not a translation package"),
                },
            ),
        }
    }

    /// The HTML style tag that declares every font of the package; empty
    /// when the package has no fonts.
    pub fn get_font_style(&self) -> (r: String)
        ensures
            r@ == font_style(font_htmls(self.fonts@)),
    {
        let mut generated: Vec<char> = Vec::new();
        let mut i: usize = 0;
        while i < self.fonts.len()
            invariant
                i <= self.fonts@.len(),
                generated@ == font_block(font_htmls(self.fonts@).take(i as int)),
            decreases self.fonts@.len() - i,
        {
            generated.push('\n');
            let h = chars_of(self.fonts[i].to_html().as_str());
            crate::text::push_all(&mut generated, h.as_slice());
            proof {
                let t = font_htmls(self.fonts@).take(i + 1);
                assert(t.drop_last() =~= font_htmls(self.fonts@).take(i as int));
                assert(generated@ =~= font_block(t.drop_last()) + seq!['\n'] + t.last());
            }
            i = i + 1;
        }
        assert(font_htmls(self.fonts@).take(self.fonts@.len() as int) =~= font_htmls(self.fonts@));
        if generated.len() == 0 {
            String::new()
        } else {
            let mut r = String::from_str("<style>");
            r.append(string_of(generated.as_slice()).as_str());
            r.append("</style>");
            r
        }
    }
}

/// The HTML of each font.
pub open spec fn font_htmls(fonts: Seq<Font>) -> Seq<Seq<char>> {
    Seq::new(fonts.len(), |i: int| fonts[i].html@)
}

/// Each font's HTML preceded by a newline, all concatenated.
pub open spec fn font_block(htmls: Seq<Seq<char>>) -> Seq<char>
    decreases htmls.len(),
{
    if htmls.len() == 0 {
        Seq::<char>::empty()
    } else {
        font_block(htmls.drop_last()) + seq!['\n'] + htmls.last()
    }
}

/// The style tag for fonts with the given HTML.
pub open spec fn font_style(htmls: Seq<Seq<char>>) -> Seq<char> {
    if font_block(htmls).len() == 0 {
        Seq::<char>::empty()
    } else {
        "<style>"@ + font_block(htmls) + "</style>"@
    }
}

/// What `camino` gives as the parent of a path: the path without its final
/// component, or `None` for an empty path or one that ends in a root.
pub uninterp spec fn utf8_parent(path: Seq<char>) -> Option<Seq<char>>;

/// `camino::Utf8Path::parent`; the contract names its result `utf8_parent`.
#[verifier::external_body]
fn parent_of(path: &str) -> (r: Option<String>)
    ensures
        match r {
            Some(p) => utf8_parent(path@) == Some(p@),
            None => utf8_parent(path@) is None,
        },
{
    camino::Utf8Path::new(path).parent().map(|p| p.as_str().to_string())
}

/// Where a package root keeps its configuration.
pub fn fpm_ftd_path(dir: &str) -> (r: String)
    ensures
        r@ == path_join(dir@, "FPM.ftd"@),
{
    join(dir, "FPM.ftd")
}

/// One step of the search for the package root, which goes up from the
/// starting directory.
#[derive(Debug)]
pub enum RootSearch {
    /// `dir` holds `FPM.ftd`: it is the root.
    Found(String),
    /// Look in the parent next.
    Continue(String),
    /// There is no parent left: no root.
    NotFound,
}

/// The search's step at `dir`, given whether `FPM.ftd` exists there.
pub fn find_package_root_step(dir: &str, has_fpm_ftd: bool) -> (r: RootSearch)
    ensures
        has_fpm_ftd ==> (r matches RootSearch::Found(d) && d@ == dir@),
        !has_fpm_ftd ==> match utf8_parent(dir@) {
            Some(p) => (r matches RootSearch::Continue(q) && q@ == p),
            None => r is NotFound,
        },
{
    if has_fpm_ftd {
        RootSearch::Found(String::from_str(dir))
    } else {
        match parent_of(dir) {
            Some(p) => RootSearch::Continue(p),
            None => RootSearch::NotFound,
        }
    }
}

/// The override patterns for the `fpm.ignore` entries: `!` before each.
pub fn ignore_override_patterns(ignores: &Vec<String>) -> (r: Vec<String>)
    ensures
        crate::document::string_views(r@) == Seq::new(
            ignores@.len(),
            |i: int| seq!['!'] + ignores@[i]@,
        ),
{
    let mut r: Vec<String> = Vec::new();
    let mut i: usize = 0;
    while i < ignores.len()
        invariant
            i <= ignores@.len(),
            crate::document::string_views(r@) == Seq::new(i as nat, |k: int| seq!['!'] + ignores@[k]@),
        decreases ignores@.len() - i,
    {
        let mut p = String::from_str("!");
        p.append(ignores[i].as_str());
        proof {
            reveal_strlit("!");
            assert("!"@ =~= seq!['!']);
        }
        let ghost before = r@;
        r.push(p);
        assert(crate::document::string_views(r@) =~= crate::document::string_views(before).push(
            seq!['!'] + ignores@[i as int]@,
        ));
        i = i + 1;
        assert(crate::document::string_views(r@) =~= Seq::new(i as nat, |k: int| seq!['!'] + ignores@[k]@));
    }
    r
}

} // verus!
