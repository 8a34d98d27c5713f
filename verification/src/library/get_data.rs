//! The `get-data` processor: which value a section asks for, and how its
//! caption or body gives it.
use vstd::prelude::*;
use crate::text::{
    all_digits, digits_value, is_digit, chars_of, chars_rsplit_once, parse_bool, parse_bool_of, parse_i64, parse_i64_of, rsplit_once,
    string_of,
};

verus! {

/// What the processor does for a section.
#[derive(Debug)]
pub enum SectionValue {
    /// The section has both a caption and a body: fail with `message`.
    Conflict { message: String },
    /// Take the package's extra data stored under the value's name.
    ExtraData { name: String },
    /// Read the body as JSON.
    Body { body: String },
    /// There is nothing to read: fail with `message`.
    Missing { message: String },
    /// The caption is a boolean.
    Bool(bool),
    /// The caption is an integer.
    Integer(i64),
    /// The caption is neither: a number with a fraction, or else a string.
    Caption { caption: String },
}

/// The name a section's value goes by: its `key` header when it has one,
/// else the last word of the section's name.
pub open spec fn value_name_spec(key: Option<Seq<char>>, section_name: Seq<char>) -> Seq<char> {
    match key {
        Some(k) => k,
        None => match rsplit_once(section_name, seq![' ']) {
            Some((_, name)) => name,
            None => section_name,
        },
    }
}

pub fn value_name(key: Option<&str>, section_name: &str) -> (r: String)
    ensures
        r@ == value_name_spec(match key {
            Some(k) => Some(k@),
            None => None,
        }, section_name@),
{
    match key {
        Some(k) => String::from_str(k),
        None => {
            let space = vec![' '];
            assert(space@ =~= seq![' ']);
            match chars_rsplit_once(chars_of(section_name).as_slice(), space.as_slice()) {
                Some((_, name)) => string_of(name.as_slice()),
                None => String::from_str(section_name),
            }
        },
    }
}

/// What the processor does for a section whose value goes by `name`:
/// a section with both a body and a caption is refused; the package's extra
/// data under `name` comes first, then the body, then the caption read as a
/// boolean, an integer, or else left as it is.
pub open spec fn section_value_spec(
    name: Seq<char>,
    has_extra_data: bool,
    body: Option<Seq<char>>,
    caption: Option<Seq<char>>,
    r: SectionValue,
) -> bool {
    if body is Some && caption is Some {
        r matches SectionValue::Conflict { message } && message@ == "Cannot pass both caption and body"@
    } else if has_extra_data {
        r matches SectionValue::ExtraData { name: n } && n@ == name
    } else if body is Some {
        r matches SectionValue::Body { body: b } && b@ == body->0
    } else if caption is None {
        r matches SectionValue::Missing { message } && message@ == "Value is not passed for "@ + name
    } else if parse_bool(caption->0) is Some {
        r == SectionValue::Bool(parse_bool(caption->0)->0)
    } else if parse_i64(caption->0) is Some {
        r == SectionValue::Integer(parse_i64(caption->0)->0)
    } else {
        r matches SectionValue::Caption { caption: c } && c@ == caption->0
    }
}

pub fn section_value(name: &str, has_extra_data: bool, body: Option<&str>, caption: Option<&str>) -> (r: SectionValue)
    ensures
        section_value_spec(name@, has_extra_data, match body {
            Some(b) => Some(b@),
            None => None,
        }, match caption {
            Some(c) => Some(c@),
            None => None,
        }, r),
        body is None && !has_extra_data && caption is Some && (caption->0@ == "true"@ || caption->0@ == "false"@)
            ==> r == SectionValue::Bool(caption->0@ == "true"@),
{
    proof {
        reveal_strlit("true");
        reveal_strlit("false");
        assert("true"@ =~= seq!['t', 'r', 'u', 'e']);
        assert("false"@ =~= seq!['f', 'a', 'l', 's', 'e']);
    }
    if body.is_some() && caption.is_some() {
        return SectionValue::Conflict {
            message: String::from_str("Cannot pass both caption and body"),
        };
    }
    if has_extra_data {
        return SectionValue::ExtraData { name: String::from_str(name) };
    }
    if let Some(b) = body {
        return SectionValue::Body { body: String::from_str(b) };
    }
    let caption = match caption {
        Some(c) => c,
        None => {
            let mut message = String::from_str("Value is not passed for ");
            message.append(name);
            return SectionValue::Missing { message };
        },
    };
    let cc = chars_of(caption);
    if let Some(b) = parse_bool_of(cc.as_slice()) {
        return SectionValue::Bool(b);
    }
    if let Some(i) = parse_i64_of(cc.as_slice()) {
        return SectionValue::Integer(i);
    }
    SectionValue::Caption { caption: String::from_str(caption) }
}

/// With neither extra data nor a body, a caption `true` or `false` is read
/// as that boolean, and no other value is given.
pub proof fn lemma_bool_caption(name: Seq<char>, caption: Seq<char>)
    requires
        caption == "true"@ || caption == "false"@,
    ensures
        forall|r: SectionValue| #[trigger] section_value_spec(name, false, None, Some(caption), r) <==> r
            == SectionValue::Bool(caption == "true"@),
{
    reveal_strlit("true");
    reveal_strlit("false");
    assert("true"@ =~= seq!['t', 'r', 'u', 'e']);
    assert("false"@ =~= seq!['f', 'a', 'l', 's', 'e']);
}

/// Where a section's value comes from: a section with both a body and a
/// caption is refused, whatever else holds; otherwise the package's extra
/// data under the value's name wins over the body, and the body over the
/// caption; with none of them the value is missing.
pub proof fn lemma_section_value_sources(
    name: Seq<char>,
    has_extra_data: bool,
    body: Option<Seq<char>>,
    caption: Option<Seq<char>>,
    r: SectionValue,
)
    requires
        section_value_spec(name, has_extra_data, body, caption, r),
    ensures
        body is Some && caption is Some ==> r is Conflict,
        !(body is Some && caption is Some) && has_extra_data ==> (r matches SectionValue::ExtraData { name: n }
            && n@ == name),
        caption is None && !has_extra_data && body is Some ==> (r matches SectionValue::Body { body: b } && b@
            == body->0),
        caption is None && !has_extra_data && body is None ==> r is Missing,
        caption is Some && body is None && !has_extra_data ==> (r is Bool || r is Integer || r is Caption),
{
}

/// With neither extra data nor a body, a caption of decimal digits whose
/// value fits an `i64` is read as that integer.
pub proof fn lemma_integer_caption(name: Seq<char>, caption: Seq<char>)
    requires
        caption.len() > 0,
        all_digits(caption),
        digits_value(caption) <= i64::MAX,
    ensures
        forall|r: SectionValue| #[trigger] section_value_spec(name, false, None, Some(caption), r) <==> r
            == SectionValue::Integer(digits_value(caption) as i64),
{
    reveal_strlit("true");
    reveal_strlit("false");
    assert(is_digit(caption[0]));
    assert(crate::text::parse_bool(caption) is None) by {
        assert(caption != seq!['t', 'r', 'u', 'e']) by {
            if caption == seq!['t', 'r', 'u', 'e'] {
                assert(caption[0] == 't');
            }
        }
        assert(caption != seq!['f', 'a', 'l', 's', 'e']) by {
            if caption == seq!['f', 'a', 'l', 's', 'e'] {
                assert(caption[0] == 'f');
            }
        }
    }
    assert(crate::text::unsigned_digits(caption) == caption);
    assert(crate::text::parse_i64(caption) == Some(digits_value(caption) as i64));
}

/// With neither extra data nor a body, a caption holding a character that
/// is no digit and no sign, and that is not `true` or `false`, is kept as
/// it is.
pub proof fn lemma_text_caption(name: Seq<char>, caption: Seq<char>, i: int)
    requires
        0 <= i < caption.len(),
        !is_digit(caption[i]),
        caption[i] != '+',
        caption[i] != '-',
        caption != "true"@,
        caption != "false"@,
    ensures
        forall|r: SectionValue| #[trigger] section_value_spec(name, false, None, Some(caption), r) <==> (
        r matches SectionValue::Caption { caption: c } && c@ == caption),
{
    reveal_strlit("true");
    reveal_strlit("false");
    assert("true"@ =~= seq!['t', 'r', 'u', 'e']);
    assert("false"@ =~= seq!['f', 'a', 'l', 's', 'e']);
    assert(crate::text::parse_bool(caption) is None);
    if caption[0] == '-' || caption[0] == '+' {
        assert(i >= 1);
        assert(caption.skip(1)[i - 1] == caption[i]);
        assert(!all_digits(caption.skip(1)));
    } else {
        assert(!all_digits(caption));
    }
    assert(crate::text::parse_i64(caption) is None);
}

} // verus!
