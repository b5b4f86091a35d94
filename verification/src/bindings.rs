//! Trusted bindings to the outside crates: `html_escape`, `url` and `encoding_rs`.
//!
//! Each function here makes one call into an outside crate and converts its
//! arguments and result; Verus believes its contract.  Where the crate's
//! behaviour takes pages to state, the result is given a name (an
//! uninterpreted spec function of the arguments), and only short facts that the
//! crate's source shows are stated beside it.
use vstd::prelude::*;

verus! {

/// What `html_escape::decode_html_entities` returns for a text.
pub uninterp spec fn html_decoded(s: Seq<char>) -> Seq<char>;

/// Calls `html_escape::decode_html_entities`.  Claims that the result is the
/// named value `html_decoded` of the input, and (as the crate's source shows:
/// a reference always starts with `&`) that a text without `&` is returned
/// unchanged.
#[verifier::external_body]
pub(crate) fn decode_html(s: &str) -> (r: String)
    ensures
        r@ == html_decoded(s@),
        !s@.contains('&') ==> r@ == s@,
{
    html_escape::decode_html_entities(s).into_owned()
}

/// The serialization of the URL that `url::Url::parse` gives for a text.
pub uninterp spec fn parsed_url(s: Seq<char>) -> Option<Seq<char>>;

/// Calls `url::Url::parse` and returns the serialization of the parsed URL,
/// `None` where parsing fails.  A serialization starts with the scheme and
/// `:`, so it is never empty.
#[verifier::external_body]
pub(crate) fn url_parse(s: &str) -> (r: Option<String>)
    ensures
        match r {
            Some(t) => parsed_url(s@) == Some(t@) && t@.len() > 0,
            None => parsed_url(s@) is None,
        },
{
    url::Url::parse(s).ok().map(String::from)
}

/// The serialization of `Url::parse(base)?.join(input)`.
pub uninterp spec fn joined_url(base: Seq<char>, input: Seq<char>) -> Option<Seq<char>>;

/// Calls `url::Url::join` on the URL parsed from `base`.  Claims the named
/// result, that it is not empty (a serialization starts with the scheme), and
/// that nothing is returned where `base` does not parse.
#[verifier::external_body]
pub(crate) fn url_join(base: &str, input: &str) -> (r: Option<String>)
    ensures
        match r {
            Some(t) => joined_url(base@, input@) == Some(t@) && t@.len() > 0,
            None => joined_url(base@, input@) is None,
        },
        parsed_url(base@) is None ==> r is None,
{
    url::Url::parse(base).ok().and_then(|u| u.join(input).ok()).map(String::from)
}

/// The scheme that `url::Url::scheme` reports for the URL parsed from a text.
pub uninterp spec fn url_scheme_of(s: Seq<char>) -> Option<Seq<char>>;

/// Calls `url::Url::scheme` on the URL parsed from `s`; `None` exactly where
/// `s` does not parse.
#[verifier::external_body]
pub(crate) fn url_scheme(s: &str) -> (r: Option<String>)
    ensures
        match r {
            Some(t) => url_scheme_of(s@) == Some(t@),
            None => url_scheme_of(s@) is None,
        },
        r is None <==> parsed_url(s@) is None,
{
    url::Url::parse(s).ok().map(|u| u.scheme().to_string())
}

/// The path that `url::Url::path` reports for the URL parsed from a text.
pub uninterp spec fn url_path_of(s: Seq<char>) -> Option<Seq<char>>;

/// Calls `url::Url::path` on the URL parsed from `s`; `None` exactly where
/// `s` does not parse.
#[verifier::external_body]
pub(crate) fn url_path(s: &str) -> (r: Option<String>)
    ensures
        match r {
            Some(t) => url_path_of(s@) == Some(t@),
            None => url_path_of(s@) is None,
        },
        r is None <==> parsed_url(s@) is None,
{
    url::Url::parse(s).ok().map(|u| u.path().to_string())
}

/// The serialization of the URL parsed from `s` after `url::Url::set_path(path)`.
pub uninterp spec fn url_with_path(s: Seq<char>, path: Seq<char>) -> Option<Seq<char>>;

/// Calls `url::Url::set_path` on the URL parsed from `s`; `None` exactly where
/// `s` does not parse.
#[verifier::external_body]
pub(crate) fn url_set_path(s: &str, path: &str) -> (r: Option<String>)
    ensures
        match r {
            Some(t) => url_with_path(s@, path@) == Some(t@),
            None => url_with_path(s@, path@) is None,
        },
        r is None <==> parsed_url(s@) is None,
{
    url::Url::parse(s).ok().map(|mut u| {
        u.set_path(path);
        String::from(u)
    })
}

/// The user name that `url::Url::username` reports for the URL parsed from a text.
pub uninterp spec fn url_username_of(s: Seq<char>) -> Option<Seq<char>>;

/// Calls `url::Url::username` on the URL parsed from `s`; `None` exactly where
/// `s` does not parse.
#[verifier::external_body]
pub(crate) fn url_username(s: &str) -> (r: Option<String>)
    ensures
        match r {
            Some(t) => url_username_of(s@) == Some(t@),
            None => url_username_of(s@) is None,
        },
        r is None <==> parsed_url(s@) is None,
{
    url::Url::parse(s).ok().map(|u| u.username().to_string())
}

/// The password that `url::Url::password` reports for the URL parsed from a text.
pub uninterp spec fn url_password_of(s: Seq<char>) -> Option<Option<Seq<char>>>;

/// Calls `url::Url::password` on the URL parsed from `s`; the outer `None`
/// exactly where `s` does not parse.
#[verifier::external_body]
pub(crate) fn url_password(s: &str) -> (r: Option<Option<String>>)
    ensures
        match r {
            Some(Some(p)) => url_password_of(s@) == Some(Some(p@)),
            Some(None) => url_password_of(s@) == Some(None::<Seq<char>>),
            None => url_password_of(s@) is None,
        },
        r is None <==> parsed_url(s@) is None,
{
    url::Url::parse(s).ok().map(|u| u.password().map(|p| p.to_string()))
}

/// The host that `url::Url::host_str` reports for the URL parsed from a text.
pub uninterp spec fn url_host_of(s: Seq<char>) -> Option<Option<Seq<char>>>;

/// Calls `url::Url::host_str` on the URL parsed from `s`; the outer `None`
/// exactly where `s` does not parse.
#[verifier::external_body]
pub(crate) fn url_host(s: &str) -> (r: Option<Option<String>>)
    ensures
        match r {
            Some(Some(h)) => url_host_of(s@) == Some(Some(h@)),
            Some(None) => url_host_of(s@) == Some(None::<Seq<char>>),
            None => url_host_of(s@) is None,
        },
        r is None <==> parsed_url(s@) is None,
{
    url::Url::parse(s).ok().map(|u| u.host_str().map(|h| h.to_string()))
}

/// The serialization of the URL parsed from `base` after its query was
/// extended with `pairs` through `url::Url::query_pairs_mut`.
pub uninterp spec fn url_with_query_pairs(base: Seq<char>, pairs: Seq<(Seq<char>, Seq<char>)>) -> Option<Seq<char>>;

pub open spec fn pair_views(pairs: Seq<(String, String)>) -> Seq<(Seq<char>, Seq<char>)> {
    pairs.map_values(|p: (String, String)| (p.0@, p.1@))
}

/// Calls `url::Url::query_pairs_mut().extend_pairs(..)` on the URL parsed from
/// `base`; `None` exactly where `base` does not parse.
#[verifier::external_body]
pub(crate) fn url_append_query(base: &str, pairs: &Vec<(String, String)>) -> (r: Option<String>)
    ensures
        match r {
            Some(t) => url_with_query_pairs(base@, pair_views(pairs@)) == Some(t@),
            None => url_with_query_pairs(base@, pair_views(pairs@)) is None,
        },
        r is None <==> parsed_url(base@) is None,
{
    url::Url::parse(base).ok().map(|mut u| {
        u.query_pairs_mut().extend_pairs(pairs.iter().map(|(k, v)| (k.as_str(), v.as_str())));
        String::from(u)
    })
}

/// What `encoding_rs` gives when the bytes are decoded (`Encoding::decode`,
/// with its BOM sniffing) with the encoding that `Encoding::for_label` finds
/// for the label: the text and whether malformed sequences were replaced.
pub uninterp spec fn decoded_with_label(label: Seq<char>, bytes: Seq<u8>) -> Option<(Seq<char>, bool)>;

/// Calls `encoding_rs::Encoding::for_label` and then `Encoding::decode`.
/// `None` where the label names no encoding; the WHATWG labels `utf-8` and
/// `gbk` always name one.
#[verifier::external_body]
pub(crate) fn decode_with_label(label: &str, bytes: &[u8]) -> (r: Option<(String, bool)>)
    ensures
        match r {
            Some((text, had_errors)) => decoded_with_label(label@, bytes@) == Some((text@, had_errors)),
            None => decoded_with_label(label@, bytes@) is None,
        },
        label@ == "utf-8"@ || label@ == "gbk"@ ==> r is Some,
{
    encoding_rs::Encoding::for_label(label.as_bytes()).map(|encoding| {
        let (text, _, had_errors) = encoding.decode(bytes);
        (text.into_owned(), had_errors)
    })
}

} // verus!
