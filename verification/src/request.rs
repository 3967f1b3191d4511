//! The compute side of resource fetching: splitting a locator into its
//! scheme and the rest, naming the schemes a fetcher dispatches on, and the
//! in-memory response for a `data:` locator. The transport itself (files,
//! sockets) lives with the embedding application.

use vstd::prelude::*;
use vstd::string::*;
use crate::strmap::AttrMap;
use crate::text::str_eq;

verus! {

/// The position of the first `://` in `s`, or its length when there is none.
pub open spec fn scheme_sep(s: Seq<char>, i: int) -> int
    decreases s.len() - i,
{
    if i < 0 || i + 3 > s.len() {
        s.len() as int
    } else if s[i] == ':' && s[i + 1] == '/' && s[i + 2] == '/' {
        i
    } else {
        scheme_sep(s, i + 1)
    }
}

/// Splits a locator at the first `://` into the scheme and the rest, or
/// yields `None` when there is no separator.
pub fn split_scheme(url: &str) -> (r: Option<(String, String)>)
    ensures
        match r {
            Some(p) => {
                &&& scheme_sep(url@, 0) < url@.len()
                &&& p.0@ == url@.take(scheme_sep(url@, 0))
                &&& p.1@ == url@.skip(scheme_sep(url@, 0) + 3)
            },
            None => scheme_sep(url@, 0) == url@.len(),
        },
{
    let n = url.unicode_len();
    let mut i: usize = 0;
    while n >= 3 && i <= n - 3
        invariant
            i <= n,
            n == url@.len(),
            scheme_sep(url@, 0) == scheme_sep(url@, i as int),
        decreases n - i,
    {
        if url.get_char(i) == ':' && url.get_char(i + 1) == '/' && url.get_char(i + 2) == '/' {
            let scheme = url.substring_char(0, i).to_owned();
            let rest = url.substring_char(i + 3, n).to_owned();
            proof {
                assert(scheme@ =~= url@.take(i as int));
                assert(rest@ =~= url@.skip(i + 3));
            }
            return Some((scheme, rest));
        }
        i = i + 1;
    }
    None
}

/// The locator schemes a fetcher dispatches on.
#[derive(Debug, Clone, Copy, PartialEq, Eq, Structural)]
pub enum Scheme {
    Data,
    File,
    Http,
    Https,
    ViewSource,
}

/// Recognizes a scheme name, or yields `None` for an unknown scheme.
pub fn scheme_of(s: &str) -> (r: Option<Scheme>)
    ensures
        match r {
            Some(Scheme::Data) => s@ == "data"@,
            Some(Scheme::File) => s@ == "file"@,
            Some(Scheme::Http) => s@ == "http"@,
            Some(Scheme::Https) => s@ == "https"@,
            Some(Scheme::ViewSource) => s@ == "view-source"@,
            None => {
                &&& s@ != "data"@
                &&& s@ != "file"@
                &&& s@ != "http"@
                &&& s@ != "https"@
                &&& s@ != "view-source"@
            },
        },
{
    if str_eq(s, "data") {
        Some(Scheme::Data)
    } else if str_eq(s, "file") {
        Some(Scheme::File)
    } else if str_eq(s, "http") {
        Some(Scheme::Http)
    } else if str_eq(s, "https") {
        Some(Scheme::Https)
    } else if str_eq(s, "view-source") {
        Some(Scheme::ViewSource)
    } else {
        None
    }
}

/// The response for a `data:` locator: an `html` content type and the
/// content itself as its UTF-8 bytes.
pub fn data(content: &str) -> (r: (AttrMap, Vec<u8>))
    ensures
        r.0@ == Map::<Seq<char>, Seq<char>>::empty().insert("content-type"@, "text/html"@),
        r.1@ == vstd::utf8::encode_utf8(content@),
{
    let mut headers = AttrMap::new();
    headers.insert("content-type".to_owned(), "text/html".to_owned());
    let body = content.as_bytes_vec();
    (headers, body)
}

} // verus!
