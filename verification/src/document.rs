//! The files of a package: FTD documents, markdown documents and static
//! files, with the identities and paths the rest of the program uses.
use vstd::prelude::*;
use vstd::multiset::Multiset;
use crate::text::{chars_of, string_of, push_all, chars_replace, chars_trim_end_matches, chars_lex_le, chars_ends_with, chars_rsplit_once, chars_eq, replace, trim_end_matches, ends_with, rsplit_once, lex_le, lemma_lex_total, lemma_lex_trans, lemma_lex_refl};
use crate::paths::{path_join, main_separator, main_separator_char, join};

verus! {

/// A file of a package.
#[derive(Debug, Clone)]
pub enum File {
    Ftd(Document),
    Static(Static),
    Markdown(Document),
}

/// A text document of a package.
#[derive(Debug, Clone)]
pub struct Document {
    pub package_name: String,
    pub id: String,
    pub content: String,
    pub parent_path: String,
}

/// A file that is served as it is.
#[derive(Debug, Clone)]
pub struct Static {
    pub id: String,
    pub base_path: String,
}

/// What kind of file an id names, by its extension.
#[derive(Debug, Clone, Copy, PartialEq, Eq, Structural)]
pub enum FileKind {
    Ftd,
    Markdown,
    Static,
}

impl File {
    /// The id of the file: its path relative to the package root.
    pub open spec fn id_spec(&self) -> Seq<char> {
        match self {
            File::Ftd(a) => a.id@,
            File::Static(a) => a.id@,
            File::Markdown(a) => a.id@,
        }
    }

    /// The directory the file's id is relative to.
    pub open spec fn base_path_spec(&self) -> Seq<char> {
        match self {
            File::Ftd(a) => a.parent_path@,
            File::Static(a) => a.base_path@,
            File::Markdown(a) => a.parent_path@,
        }
    }

    pub fn get_id(&self) -> (r: String)
        ensures
            r@ == self.id_spec(),
    {
        match self {
            File::Ftd(a) => a.id.clone(),
            File::Static(a) => a.id.clone(),
            File::Markdown(a) => a.id.clone(),
        }
    }

    pub fn get_base_path(&self) -> (r: String)
        ensures
            r@ == self.base_path_spec(),
    {
        match self {
            File::Ftd(a) => a.parent_path.clone(),
            File::Static(a) => a.base_path.clone(),
            File::Markdown(a) => a.parent_path.clone(),
        }
    }

    /// The base path joined with the id.
    pub fn get_full_path(&self) -> (r: String)
        ensures
            r@ == path_join(self.base_path_spec(), self.id_spec()),
    {
        let id = self.get_id();
        let base_path = self.get_base_path();
        join(base_path.as_str(), id.as_str())
    }
}

/// The extension of FTD documents.
pub open spec fn ftd_ext() -> Seq<char> {
    seq!['.', 'f', 't', 'd']
}

pub fn ftd_ext_chars() -> (r: Vec<char>)
    ensures
        r@ == ftd_ext(),
{
    let r = vec!['.', 'f', 't', 'd'];
    assert(r@ =~= ftd_ext());
    r
}

impl Document {
    /// Every `.ftd` in the id replaced by the path separator.
    pub fn id_to_path(&self) -> (r: String)
        ensures
            r@ == replace(self.id@, ftd_ext(), seq![main_separator()]),
    {
        let id = chars_of(self.id.as_str());
        let ext = ftd_ext_chars();
        let sep = vec![main_separator_char()];
        assert(sep@ =~= seq![main_separator()]);
        let r = chars_replace(id.as_slice(), ext.as_slice(), sep.as_slice());
        string_of(r.as_slice())
    }

    /// `<package name>/<id without trailing .ftd>`.
    pub fn id_with_package(&self) -> (r: String)
        ensures
            r@ == self.package_name@ + seq!['/'] + trim_end_matches(self.id@, ftd_ext()),
    {
        let mut r = chars_of(self.package_name.as_str());
        r.push('/');
        let id = chars_of(self.id.as_str());
        let ext = ftd_ext_chars();
        let t = chars_trim_end_matches(id.as_slice(), ext.as_slice());
        push_all(&mut r, t.as_slice());
        string_of(r.as_slice())
    }
}

/// Ids in non-decreasing order.
pub open spec fn sorted_by_id(files: Seq<File>) -> bool {
    forall|i: int, j: int| 0 <= i < j < files.len() ==> lex_le(#[trigger] files[i].id_spec(), #[trigger] files[j].id_spec())
}

/// Whether file `a`'s id is at most file `b`'s.
fn id_le(a: &File, b: &File) -> (r: bool)
    ensures
        r == lex_le(a.id_spec(), b.id_spec()),
{
    let x = chars_of(a.get_id().as_str());
    let y = chars_of(b.get_id().as_str());
    chars_lex_le(x.as_slice(), y.as_slice())
}

/// `r` is `s` reordered: `r[k]` is `s[perm[k]]`, no position of `s` is
/// taken twice, and files with equal ids keep their relative order.
pub open spec fn stable_reorder(s: Seq<File>, r: Seq<File>, perm: Seq<int>) -> bool {
    &&& perm.len() == r.len() == s.len()
    &&& forall|k: int| 0 <= k < r.len() ==> 0 <= #[trigger] perm[k] < s.len() && r[k] == s[perm[k]]
    &&& forall|k: int, l: int| 0 <= k < l < r.len() ==> #[trigger] perm[k] != #[trigger] perm[l]
    &&& forall|k: int, l: int| 0 <= k < l < r.len() && (#[trigger] r[k]).id_spec() == (#[trigger] r[l]).id_spec() ==> perm[k] < perm[l]
}

/// The files ordered by id (`sort_by_key(get_id)`): ids in non-decreasing
/// order, the files a stable reordering of the input.
pub fn sort_by_id(files: Vec<File>) -> (r: Vec<File>)
    ensures
        sorted_by_id(r@),
        exists|perm: Seq<int>| stable_reorder(files@, r@, perm),
        r@.to_multiset() == files@.to_multiset(),
{
    broadcast use vstd::seq_lib::group_to_multiset_ensures;

    let ghost orig = files@;
    let mut rest = files;
    let mut r: Vec<File> = Vec::new();
    let ghost mut perm: Seq<int> = Seq::empty();
    assert(r@.to_multiset() =~= Multiset::<File>::empty());
    assert(rest@ =~= orig.take(orig.len() as int));
    while rest.len() > 0
        invariant
            sorted_by_id(r@),
            r@.to_multiset().add(rest@.to_multiset()) == orig.to_multiset(),
            rest@ == orig.take(rest@.len() as int),
            rest@.len() + r@.len() == orig.len(),
            perm.len() == r@.len(),
            forall|k: int| 0 <= k < r@.len() ==> rest@.len() <= #[trigger] perm[k] < orig.len() && r@[k] == orig[perm[k]],
            forall|k: int, l: int| 0 <= k < l < r@.len() ==> #[trigger] perm[k] != #[trigger] perm[l],
            forall|k: int, l: int| 0 <= k < l < r@.len() && (#[trigger] r@[k]).id_spec() == (#[trigger] r@[l]).id_spec() ==> perm[k] < perm[l],
        decreases rest.len(),
    {
        let ghost before = rest@;
        let x = rest.pop().unwrap();
        assert(before =~= rest@.push(x));
        let ghost p0 = rest@.len() as int;
        assert(x == orig[p0]);
        assert(rest@ =~= orig.take(p0));
        let mut p: usize = 0;
        while p < r.len() && !id_le(&x, &r[p])
            invariant
                p <= r@.len(),
                sorted_by_id(r@),
                forall|j: int| 0 <= j < p ==> lex_le(#[trigger] r@[j].id_spec(), x.id_spec()) && !lex_le(
                    x.id_spec(),
                    r@[j].id_spec(),
                ),
            decreases r@.len() - p,
        {
            proof {
                lemma_lex_total(x.id_spec(), r@[p as int].id_spec());
            }
            p = p + 1;
        }
        let ghost old_r = r@;
        let ghost old_perm = perm;
        proof {
            assert forall|j: int| p <= j < old_r.len() implies lex_le(x.id_spec(), #[trigger] old_r[j].id_spec()) by {
                if j > p {
                    lemma_lex_trans(x.id_spec(), old_r[p as int].id_spec(), old_r[j].id_spec());
                }
            }
            lemma_lex_refl(x.id_spec());
        }
        r.insert(p, x);
        proof {
            perm = old_perm.insert(p as int, p0);
            let nr = r@;
            assert(nr =~= old_r.insert(p as int, x));
            assert forall|i: int, j: int| 0 <= i < j < nr.len() implies lex_le(
                #[trigger] nr[i].id_spec(),
                #[trigger] nr[j].id_spec(),
            ) by {
                if j < p {
                } else if j == p {
                } else if i == p {
                    assert(nr[j] == old_r[j - 1]);
                } else if i < p {
                    assert(nr[j] == old_r[j - 1]);
                    lemma_lex_trans(old_r[i].id_spec(), x.id_spec(), old_r[j - 1].id_spec());
                } else {
                    assert(nr[i] == old_r[i - 1] && nr[j] == old_r[j - 1]);
                }
            }
            assert forall|k: int| 0 <= k < nr.len() implies rest@.len() <= #[trigger] perm[k] < orig.len()
                && nr[k] == orig[perm[k]] by {
                if k < p {
                    assert(perm[k] == old_perm[k]);
                } else if k > p {
                    assert(perm[k] == old_perm[k - 1]);
                }
            }
            assert forall|k: int, l: int| 0 <= k < l < nr.len() implies #[trigger] perm[k] != #[trigger] perm[l] by {
                if k < p && l < p {
                } else if k < p && l > p {
                    assert(perm[l] == old_perm[l - 1]);
                } else if k > p {
                    assert(perm[k] == old_perm[k - 1] && perm[l] == old_perm[l - 1]);
                } else if k == p {
                    assert(perm[l] == old_perm[l - 1]);
                } else {
                    assert(perm[k] == old_perm[k]);
                }
            }
            assert forall|k: int, l: int| 0 <= k < l < nr.len() && (#[trigger] nr[k]).id_spec() == (
            #[trigger] nr[l]).id_spec() implies perm[k] < perm[l] by {
                if l < p {
                } else if l == p {
                    assert(nr[k] == old_r[k]);
                    assert(!lex_le(x.id_spec(), old_r[k].id_spec()));
                } else if k == p {
                    assert(perm[l] == old_perm[l - 1]);
                } else if k < p {
                    assert(nr[l] == old_r[l - 1]);
                    assert(perm[l] == old_perm[l - 1]);
                } else {
                    assert(nr[k] == old_r[k - 1] && nr[l] == old_r[l - 1]);
                    assert(perm[k] == old_perm[k - 1] && perm[l] == old_perm[l - 1]);
                }
            }
            vstd::seq_lib::to_multiset_insert(old_r, p as int, x);
            vstd::seq_lib::to_multiset_build(rest@, x);
            assert(nr.to_multiset().add(rest@.to_multiset()) =~= old_r.to_multiset().add(before.to_multiset()));
        }
    }
    assert(rest@.to_multiset() =~= Multiset::<File>::empty());
    assert(r@.to_multiset().add(rest@.to_multiset()) =~= r@.to_multiset());
    assert(stable_reorder(orig, r@, perm));
    r
}

/// The text that the id of a file must follow in its canonical path: the
/// base path, ending in a separator.
pub open spec fn id_anchor(base_path: Seq<char>) -> Seq<char> {
    if ends_with(base_path, seq![main_separator()]) {
        base_path
    } else {
        base_path + seq![main_separator()]
    }
}

/// The id of the file at canonical path `canonical` under `base_path`: what
/// follows the last occurrence of the base path and a separator; `None`
/// when that does not occur.
pub open spec fn file_id_spec(canonical: Seq<char>, base_path: Seq<char>) -> Option<Seq<char>> {
    match rsplit_once(canonical, id_anchor(base_path)) {
        Some((_, id)) => Some(id),
        None => None,
    }
}

pub fn file_id(canonical: &str, base_path: &str) -> (r: Option<String>)
    ensures
        match r {
            Some(id) => file_id_spec(canonical@, base_path@) == Some(id@),
            None => file_id_spec(canonical@, base_path@) is None,
        },
{
    let sep = main_separator_char();
    let mut anchor = chars_of(base_path);
    let sep_v = vec![sep];
    assert(sep_v@ =~= seq![main_separator()]);
    if !chars_ends_with(anchor.as_slice(), sep_v.as_slice()) {
        anchor.push(sep);
    }
    assert(anchor@ =~= id_anchor(base_path@));
    let c = chars_of(canonical);
    match chars_rsplit_once(c.as_slice(), anchor.as_slice()) {
        Some((_, id)) => Some(string_of(id.as_slice())),
        None => None,
    }
}

/// The kind of file an id names: what follows its last `.` decides.
pub open spec fn file_kind_spec(id: Seq<char>) -> FileKind {
    match rsplit_once(id, seq!['.']) {
        Some((_, ext)) => if ext == seq!['f', 't', 'd'] {
            FileKind::Ftd
        } else if ext == seq!['m', 'd'] {
            FileKind::Markdown
        } else {
            FileKind::Static
        },
        None => FileKind::Static,
    }
}

/// A file is an FTD document exactly when its id ends with `.ftd`, a
/// markdown document exactly when it ends with `.md`, and static otherwise.
pub proof fn lemma_file_kind_by_extension(id: Seq<char>)
    ensures
        (file_kind_spec(id) == FileKind::Ftd) <==> ends_with(id, ".ftd"@),
        (file_kind_spec(id) == FileKind::Markdown) <==> ends_with(id, ".md"@),
{
    reveal_strlit(".ftd");
    reveal_strlit(".md");
    let dot = seq!['.'];
    let n = id.len() as int;
    assert forall|i: int| 0 <= i < n implies crate::text::matches_at(id, dot, i) == (id[i] == '.') by {
        if id[i] == '.' {
            assert(id.subrange(i, i + 1) =~= dot);
        }
        if crate::text::matches_at(id, dot, i) {
            assert(id.subrange(i, i + 1)[0] == id[i]);
        }
    }
    crate::text::lemma_last_match_bounds(id, dot, n - 1);
    match crate::text::last_match(id, dot) {
        Some(i) => {
            assert(crate::text::matches_at(id, dot, i));
            assert(0 <= i && i + 1 <= n);
            let ext = id.skip(i + 1);
            assert(ext.len() == n - i - 1);
            if ext == seq!['f', 't', 'd'] {
                assert(i == n - 4);
                assert(id.subrange(n - 4, n) =~= ".ftd"@) by {
                    assert(ext[0] == id[i + 1]);
                    assert(ext[1] == id[i + 2]);
                    assert(ext[2] == id[i + 3]);
                }
            }
            if ext == seq!['m', 'd'] {
                assert(i == n - 3);
                assert(id.subrange(n - 3, n) =~= ".md"@) by {
                    assert(ext[0] == id[i + 1]);
                    assert(ext[1] == id[i + 2]);
                }
            }
        },
        None => {},
    }
    if ends_with(id, ".ftd"@) {
        let t = id.subrange(n - 4, n);
        assert(t[0] == id[n - 4] && t[1] == id[n - 3] && t[2] == id[n - 2] && t[3] == id[n - 1]);
        assert(".ftd"@ =~= seq!['.', 'f', 't', 'd']);
        assert(crate::text::matches_at(id, dot, n - 4));
        assert(!crate::text::matches_at(id, dot, n - 3));
        assert(!crate::text::matches_at(id, dot, n - 2));
        assert(!crate::text::matches_at(id, dot, n - 1));
        assert(crate::text::last_match_upto(id, dot, n - 4) == Some(n - 4));
        assert(crate::text::last_match_upto(id, dot, n - 3) == Some(n - 4));
        assert(crate::text::last_match_upto(id, dot, n - 2) == Some(n - 4));
        assert(crate::text::last_match_upto(id, dot, n - 1) == Some(n - 4));
        assert(id.skip(n - 3) =~= seq!['f', 't', 'd']);
    }
    if ends_with(id, ".md"@) {
        let t = id.subrange(n - 3, n);
        assert(t[0] == id[n - 3] && t[1] == id[n - 2] && t[2] == id[n - 1]);
        assert(".md"@ =~= seq!['.', 'm', 'd']);
        assert(crate::text::matches_at(id, dot, n - 3));
        assert(!crate::text::matches_at(id, dot, n - 2));
        assert(!crate::text::matches_at(id, dot, n - 1));
        assert(crate::text::last_match_upto(id, dot, n - 3) == Some(n - 3));
        assert(crate::text::last_match_upto(id, dot, n - 2) == Some(n - 3));
        assert(crate::text::last_match_upto(id, dot, n - 1) == Some(n - 3));
        assert(id.skip(n - 2) =~= seq!['m', 'd']);
    }
}

pub fn file_kind(id: &str) -> (k: FileKind)
    ensures
        k == file_kind_spec(id@),
{
    let c = chars_of(id);
    let dot = vec!['.'];
    assert(dot@ =~= seq!['.']);
    match chars_rsplit_once(c.as_slice(), dot.as_slice()) {
        Some((_, ext)) => {
            let ftd = vec!['f', 't', 'd'];
            let md = vec!['m', 'd'];
            assert(ftd@ =~= seq!['f', 't', 'd']);
            assert(md@ =~= seq!['m', 'd']);
            if chars_eq(ext.as_slice(), ftd.as_slice()) {
                FileKind::Ftd
            } else if chars_eq(ext.as_slice(), md.as_slice()) {
                FileKind::Markdown
            } else {
                FileKind::Static
            }
        },
        None => FileKind::Static,
    }
}

/// The file with id `id` found under `base_path`: a document holding
/// `content` when the id names an FTD or markdown document, a static file
/// otherwise.
pub fn make_file(package_name: String, id: String, base_path: String, content: String) -> (f: File)
    ensures
        match file_kind_spec(id@) {
            FileKind::Ftd => f == File::Ftd(
                Document { package_name, id, content, parent_path: base_path },
            ),
            FileKind::Markdown => f == File::Markdown(
                Document { package_name, id, content, parent_path: base_path },
            ),
            FileKind::Static => f == File::Static(Static { id, base_path }),
        },
{
    match file_kind(id.as_str()) {
        FileKind::Ftd => File::Ftd(Document { package_name, id, content, parent_path: base_path }),
        FileKind::Markdown => File::Markdown(
            Document { package_name, id, content, parent_path: base_path },
        ),
        FileKind::Static => File::Static(Static { id, base_path }),
    }
}

/// The message for a path that names a directory.
pub fn should_be_a_file(path: &str) -> (m: String)
    ensures
        m@ == path@ + " should be a file"@,
{
    let mut m = String::from_str(path);
    m.append(" should be a file");
    m
}

/// The paths that every package walk leaves out.
pub open spec fn default_ignores() -> Seq<Seq<char>> {
    seq!["!.history"@, "!.packages"@, "!.tracks"@, "!FPM"@, "!rust-toolchain"@, "!.build"@]
}

/// The override patterns for walking a package: the fixed ones, then `!p`
/// for each ignored path `p`, in order.
pub open spec fn ignore_patterns(ignored_paths: Seq<Seq<char>>) -> Seq<Seq<char>> {
    default_ignores() + Seq::new(ignored_paths.len(), |i: int| seq!['!'] + ignored_paths[i])
}

/// The contents of each string.
pub open spec fn string_views(v: Seq<String>) -> Seq<Seq<char>> {
    Seq::new(v.len(), |i: int| v[i]@)
}

pub fn package_ignore_patterns(ignored_paths: &Vec<String>) -> (r: Vec<String>)
    ensures
        string_views(r@) == ignore_patterns(string_views(ignored_paths@)),
        r@.len() == 6 + ignored_paths@.len(),
        forall|i: int| 0 <= i < ignored_paths@.len() ==> (#[trigger] r@[6 + i])@ == seq!['!'] + ignored_paths@[i]@,
{
    let mut r: Vec<String> = Vec::new();
    r.push(String::from_str("!.history"));
    r.push(String::from_str("!.packages"));
    r.push(String::from_str("!.tracks"));
    r.push(String::from_str("!FPM"));
    r.push(String::from_str("!rust-toolchain"));
    r.push(String::from_str("!.build"));
    assert(string_views(r@) =~= default_ignores());
    let mut i: usize = 0;
    while i < ignored_paths.len()
        invariant
            i <= ignored_paths@.len(),
            string_views(r@) == default_ignores() + Seq::new(
                i as nat,
                |k: int| seq!['!'] + ignored_paths@[k]@,
            ),
        decreases ignored_paths@.len() - i,
    {
        let mut p = String::from_str("!");
        p.append(ignored_paths[i].as_str());
        proof {
            reveal_strlit("!");
            assert("!"@ =~= seq!['!']);
            assert(p@ == seq!['!'] + ignored_paths@[i as int]@);
        }
        let ghost before = r@;
        r.push(p);
        assert(string_views(r@) =~= string_views(before).push(p@));
        i = i + 1;
        assert(string_views(r@) =~= default_ignores() + Seq::new(
            i as nat,
            |k: int| seq!['!'] + ignored_paths@[k]@,
        ));
    }
    assert(Seq::new(ignored_paths@.len(), |k: int| seq!['!'] + ignored_paths@[k]@) =~= Seq::new(
        string_views(ignored_paths@).len(),
        |k: int| seq!['!'] + string_views(ignored_paths@)[k],
    ));
    proof {
        lemma_ignore_patterns_cover(string_views(ignored_paths@));
        assert forall|i: int| 0 <= i < ignored_paths@.len() implies (#[trigger] r@[6 + i])@ == seq!['!']
            + ignored_paths@[i]@ by {
            assert(string_views(r@)[6 + i] == r@[6 + i]@);
            assert(string_views(ignored_paths@)[i] == ignored_paths@[i]@);
        }
    }
    r
}

/// The walk of a package skips its history, packages, tracks, `FPM`
/// files, toolchain file and build folder, and then every ignored path,
/// each under its own override and in the order given: there are exactly
/// six fixed overrides and one `!p` for each ignored path `p`.
pub proof fn lemma_ignore_patterns_cover(ignored_paths: Seq<Seq<char>>)
    ensures
        ignore_patterns(ignored_paths).len() == 6 + ignored_paths.len(),
        ignore_patterns(ignored_paths)[0] == "!.history"@,
        ignore_patterns(ignored_paths)[1] == "!.packages"@,
        ignore_patterns(ignored_paths)[2] == "!.tracks"@,
        ignore_patterns(ignored_paths)[3] == "!FPM"@,
        ignore_patterns(ignored_paths)[4] == "!rust-toolchain"@,
        ignore_patterns(ignored_paths)[5] == "!.build"@,
        forall|i: int| 0 <= i < ignored_paths.len() ==> #[trigger] ignore_patterns(ignored_paths)[6 + i]
            == seq!['!'] + ignored_paths[i],
{
}

/// The id in `id_with_package` never ends with `.ftd`.
pub proof fn lemma_id_with_package_has_no_ftd_suffix(id: Seq<char>)
    ensures
        !crate::text::ends_with(trim_end_matches(id, ftd_ext()), ftd_ext()),
{
    crate::text::lemma_trim_end_matches_no_suffix(id, ftd_ext());
}

} // verus!
