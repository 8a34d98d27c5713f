//! Path joining as `camino` does it, on paths held as strings. The rules
//! stated here are those of Unix-like targets, where `/` is the separator
//! and a path is absolute exactly when it starts with `/`.
use vstd::prelude::*;

verus! {

/// The platform's main path separator.
pub open spec fn main_separator() -> char {
    '/'
}

/// `Utf8Path::join`: an absolute `p` replaces `base`; otherwise `p` is
/// appended, with a separator in between unless `base` is empty or already
/// ends with one.
pub open spec fn path_join(base: Seq<char>, p: Seq<char>) -> Seq<char> {
    if p.len() > 0 && p[0] == main_separator() {
        p
    } else if base.len() == 0 || base.last() == main_separator() {
        base + p
    } else {
        base + seq![main_separator()] + p
    }
}

/// `std::path::MAIN_SEPARATOR`; the contract states its value on Unix-like
/// targets, `/`.
#[verifier::external_body]
pub(crate) fn main_separator_char() -> (c: char)
    ensures
        c == main_separator(),
{
    std::path::MAIN_SEPARATOR
}

/// `camino::Utf8Path::join`, which is `std::path::PathBuf::push` on a copy:
/// the contract claims the result is `path_join` of the two strings
/// (Unix-like targets).
#[verifier::external_body]
pub(crate) fn join(base: &str, p: &str) -> (r: String)
    ensures
        r@ == path_join(base@, p@),
{
    camino::Utf8Path::new(base).join(p).into_string()
}

} // verus!
