//! The authors line shown by the command-line help.
use vstd::prelude::*;
use crate::text::{
    chars_of, chars_join, chars_split, chars_split_once, chars_trim, join, split_char,
    split_once_char, string_of, trim, views,
};

verus! {

/// The name in one `Name <email>` entry: the trimmed text before `<`, or
/// nothing when there is no `<`.
pub open spec fn author_name(entry: Seq<char>) -> Seq<char> {
    match split_once_char(entry, '<') {
        Some((name, _)) => trim(name),
        None => Seq::empty(),
    }
}

/// The names of the `:`-separated author entries, joined by `, `.
pub open spec fn authors_spec(cargo_pkg_authors: Seq<char>) -> Seq<char> {
    let entries = split_char(cargo_pkg_authors, ':');
    join(Seq::new(entries.len(), |i: int| author_name(entries[i])), seq![',', ' '])
}

/// The authors line for the package authors as Cargo lists them.
pub fn authors(cargo_pkg_authors: &str) -> (r: String)
    ensures
        r@ == authors_spec(cargo_pkg_authors@),
{
    let entries = chars_split(chars_of(cargo_pkg_authors).as_slice(), ':');
    let ghost ev = split_char(cargo_pkg_authors@, ':');
    let mut names: Vec<Vec<char>> = Vec::new();
    let mut i: usize = 0;
    while i < entries.len()
        invariant
            i <= entries@.len(),
            views(entries@) == ev,
            views(names@) == Seq::new(i as nat, |x: int| author_name(ev[x])),
        decreases entries@.len() - i,
    {
        assert(entries@[i as int]@ == ev[i as int]);
        let name = match chars_split_once(entries[i].as_slice(), '<') {
            Some((v, _)) => chars_trim(v.as_slice()),
            None => Vec::new(),
        };
        assert(name@ == author_name(ev[i as int]));
        let ghost before = names@;
        names.push(name);
        assert(views(names@) =~= views(before).push(author_name(ev[i as int])));
        i = i + 1;
        assert(views(names@) =~= Seq::new(i as nat, |x: int| author_name(ev[x])));
    }
    let sep = vec![',', ' '];
    assert(sep@ =~= seq![',', ' ']);
    assert(views(names@) =~= Seq::new(ev.len(), |x: int| author_name(ev[x])));
    let r = chars_join(&names, sep.as_slice());
    string_of(r.as_slice())
}

} // verus!
