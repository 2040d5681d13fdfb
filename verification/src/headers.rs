//! HTTP headers, and what the library relies on from `http`.

use vstd::prelude::*;

use crate::text::lower;

verus! {

/// `http::HeaderValue`, carried as an opaque value.
#[verifier::external_type_specification]
#[verifier::external_body]
pub struct ExHeaderValue(http::HeaderValue);

/// `http::HeaderMap`, carried as an opaque value whose values are [`header_values`].
#[verifier::external_type_specification]
#[verifier::external_body]
#[verifier::reject_recursive_types(T)]
pub struct ExHeaderMap<T>(http::HeaderMap<T>);

/// The bytes of the values stored under each lower-case header name, in the order in which they
/// were stored.
pub uninterp spec fn header_values(headers: http::HeaderMap<http::HeaderValue>) -> Map<
    Seq<char>,
    Seq<Seq<u8>>,
>;

/// `http::HeaderMap::get`, the value by its bytes: the first value stored under `name`, if any,
/// whatever the ASCII case of `name`; a text that is no header name finds nothing.
#[verifier::external_body]
pub(crate) fn first_header(headers: &http::HeaderMap<http::HeaderValue>, name: &str) -> (value:
    Option<Vec<u8>>)
    ensures
        match value {
            Some(bytes) => header_values(*headers).contains_key(lower(name@)) && header_values(
                *headers,
            )[lower(name@)].len() > 0 && header_values(*headers)[lower(name@)][0] == bytes@,
            None => !header_values(*headers).contains_key(lower(name@)),
        },
{
    headers.get(name).map(|value| value.as_bytes().to_vec())
}

/// `http::HeaderMap::clone`: the copy stores the same values under the same names, in the same
/// order.
#[verifier::external_body]
pub(crate) fn copy_headers(headers: &http::HeaderMap<http::HeaderValue>) -> (copy: http::HeaderMap<
    http::HeaderValue,
>)
    ensures
        header_values(copy) == header_values(*headers),
{
    headers.clone()
}

/// Whether the byte is a visible ASCII character, a space or a tab.
pub open spec fn visible(byte: u8) -> bool {
    32 <= byte < 127 || byte == 9
}

/// The text of a header value: its bytes as characters, if all of them are visible.
pub open spec fn header_text(bytes: Seq<u8>) -> Option<Seq<char>> {
    if forall|i: int| 0 <= i < bytes.len() ==> visible(#[trigger] bytes[i]) {
        Some(bytes.map_values(|byte: u8| byte as char))
    } else {
        None
    }
}

/// The text of a header value whose bytes are all visible.
fn visible_text(bytes: &Vec<u8>) -> (text: Option<String>)
    ensures
        match text {
            Some(text) => header_text(bytes@) == Some(text@),
            None => header_text(bytes@) is None,
        },
{
    let mut text = String::new();
    let mut i: usize = 0;
    while i < bytes.len()
        invariant
            i <= bytes@.len(),
            text@.len() == i,
            forall|j: int| 0 <= j < i ==> visible(#[trigger] bytes@[j]),
            forall|j: int| 0 <= j < i ==> #[trigger] text@[j] == bytes@[j] as char,
        decreases bytes.len() - i,
    {
        let byte = bytes[i];
        if !(32 <= byte && byte < 127 || byte == 9) {
            assert(!visible(bytes@[i as int]));
            return None;
        }
        text.push(byte as char);
        i = i + 1;
    }
    assert(text@ =~= bytes@.map_values(|byte: u8| byte as char));
    Some(text)
}

/// The text of the first value under `name`, unless it is absent, empty or not visible.
pub open spec fn nonempty_text(values: Map<Seq<char>, Seq<Seq<u8>>>, name: Seq<char>) -> Option<
    Seq<char>,
> {
    if values.contains_key(name) && values[name].len() > 0 && values[name][0].len() > 0 {
        header_text(values[name][0])
    } else {
        None
    }
}

/// The text of the first value under `name`, in any ASCII case, unless it is absent, empty or not
/// visible.
pub fn nonempty_header(headers: &http::HeaderMap<http::HeaderValue>, name: &str) -> (text: Option<
    String,
>)
    ensures
        match text {
            Some(text) => nonempty_text(header_values(*headers), lower(name@)) == Some(text@),
            None => nonempty_text(header_values(*headers), lower(name@)) is None,
        },
{
    match first_header(headers, name) {
        Some(bytes) => if bytes.len() > 0 {
            visible_text(&bytes)
        } else {
            None
        },
        None => None,
    }
}

/// A header value is a text exactly if all its bytes are visible ASCII, spaces or tabs; its
/// characters are then those bytes.
pub proof fn law_header_texts_are_their_visible_bytes(bytes: Seq<u8>, i: int)
    requires
        0 <= i < bytes.len(),
    ensures
        header_text(bytes) is Some ==> 32 <= bytes[i] < 127 || bytes[i] == 9,
        header_text(bytes) matches Some(text) ==> text.len() == bytes.len() && text[i]
            == bytes[i] as char,
        (forall|k: int| 0 <= k < bytes.len() ==> 32 <= #[trigger] bytes[k] < 127 || bytes[k] == 9)
            ==> header_text(bytes) is Some,
        header_text(Seq::empty()) == Some(Seq::<char>::empty()),
{
    assert(forall|k: int| visible(#[trigger] bytes[k]) == (32 <= bytes[k] < 127 || bytes[k] == 9));
    assert(Seq::<u8>::empty().map_values(|byte: u8| byte as char) =~= Seq::<char>::empty());
}

} // verus!
