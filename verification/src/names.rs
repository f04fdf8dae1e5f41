use vstd::prelude::*;
use crate::text::push_char;
use std::string::FromUtf8Error;

verus! {

/// What `urlencoding::decode` makes of a text: its `%XX` escapes decoded
/// into bytes, the bytes read as UTF-8 (`None` when they are not valid UTF-8).
pub uninterp spec fn percent_decoded(s: Seq<char>) -> Option<Seq<char>>;

#[verifier::external_type_specification]
#[verifier::external_body]
pub struct ExFromUtf8Error(FromUtf8Error);

/// Calls `urlencoding::decode`. Trusted: the decoded text is `percent_decoded`
/// of the input, and the call fails exactly when that is `None`; a text
/// without any `%` comes back unchanged (the crate returns it borrowed).
#[verifier::external_body]
fn url_decode(s: &str) -> (r: Result<String, FromUtf8Error>)
    ensures
        r is Ok <==> percent_decoded(s@) is Some,
        r matches Ok(d) ==> d@ == percent_decoded(s@)->0,
        !s@.contains('%') ==> r is Ok,
        r matches Ok(d) ==> (!s@.contains('%') ==> d@ == s@),
{
    match urlencoding::decode(s) {
        Ok(text) => Ok(text.into_owned()),
        Err(e) => Err(e),
    }
}

/// `+` read as a space, as the world data files write spaces in names.
pub open spec fn plus_as_space(c: char) -> char {
    if c == '+' {
        ' '
    } else {
        c
    }
}

/// The text with every `+` replaced by a space (`str::replace("+", " ")`).
pub open spec fn spaced(s: Seq<char>) -> Seq<char> {
    s.map_values(|c: char| plus_as_space(c))
}

/// The name that a raw name from the world data stands for: `+` read as a
/// space, then percent-escapes decoded; `None` when that is not UTF-8.
pub open spec fn decoded_name(raw: Seq<char>) -> Option<Seq<char>> {
    percent_decoded(spaced(raw))
}

/// Replaces every `+` of `s` by a space.
pub fn plus_to_space(s: &str) -> (r: String)
    ensures
        r@ == spaced(s@),
{
    let mut r = String::new();
    for c in it: s.chars()
        invariant
            it.seq() == s@,
            r@ == spaced(s@.take(it.index())),
    {
        if c == '+' {
            push_char(&mut r, ' ');
        } else {
            push_char(&mut r, c);
        }
        assert(spaced(s@.take(it.index() + 1)) == spaced(s@.take(it.index())).push(plus_as_space(c)));
    }
    assert(s@.take(s@.len() as int) == s@);
    r
}

/// `name` is what the raw name `raw` decodes to; a raw name without `%`
/// decodes to itself with `+` read as a space.
pub open spec fn name_decoded(name: Seq<char>, raw: Seq<char>) -> bool {
    &&& decoded_name(raw) == Some(name)
    &&& !raw.contains('%') ==> name == spaced(raw)
}

/// Decodes a raw name of the world data: `+` becomes a space, then the
/// percent-escapes are decoded. `None` exactly when the result is not UTF-8.
pub fn decode_name(raw: &str) -> (r: Option<String>)
    ensures
        r is Some <==> decoded_name(raw@) is Some,
        r matches Some(name) ==> name@ == decoded_name(raw@)->0,
        !raw@.contains('%') ==> (r matches Some(name) && name@ == spaced(raw@)),
{
    let spaced_text = plus_to_space(raw);
    match url_decode(spaced_text.as_str()) {
        Ok(name) => Some(name),
        Err(_) => None,
    }
}

}
