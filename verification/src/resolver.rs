//! Resolving references to further sources.
//!
//! A model that is being loaded holds the references that were found and not
//! yet read.  They are taken most recent first.  This module decides how each is
//! to be fetched; fetching itself is left to the caller, who hands the text to
//! [`crate::parser::populate_bakefile`].

use crate::model::{empty_model, Bakefile, BakefileView};
use crate::outcome::Failure;
use crate::text::{contains, from_chars, has_substring, to_chars};
use vstd::prelude::*;
use vstd::slice::slice_subrange;

verus! {

/// What has to be done to get the text of a source.
#[derive(Debug, PartialEq, Eq)]
pub enum Request {
    /// Read the file at this path.
    ReadFile(String),
    /// Fetch the body found at this URL.
    Fetch(String),
}

/// The mathematical value of a [`Request`].
pub enum RequestView {
    ReadFile(Seq<char>),
    Fetch(Seq<char>),
}

impl View for Request {
    type V = RequestView;

    open spec fn view(&self) -> RequestView {
        match self {
            Request::ReadFile(path) => RequestView::ReadFile(path@),
            Request::Fetch(url) => RequestView::Fetch(url@),
        }
    }
}

/// `url::Url`, a parsed URL.  Nothing is said of what it holds.
#[verifier::external_type_specification]
#[verifier::external_body]
pub struct ExUrl(url::Url);

/// `url::ParseError`, the reason for which a text is no URL.  Nothing is said
/// of what it holds.
#[verifier::external_type_specification]
#[verifier::external_body]
pub struct ExParseError(url::ParseError);

/// Whether `url::Url::parse` accepts `text` as an absolute URL.
pub uninterp spec fn url_parses(text: Seq<char>) -> bool;

/// `url::Url::parse` decides from the text alone whether it is an absolute
/// URL: it returns `Ok` exactly for the texts that [`url_parses`] names.
pub assume_specification[ url::Url::parse ](input: &str) -> (r: Result<
    url::Url,
    url::ParseError,
>)
    ensures
        r.is_ok() == url_parses(input@),
;

/// The text that marks a reference as remote.
pub open spec fn remote_marker() -> Seq<char> {
    seq!['h', 't', 't', 'p']
}

/// A reference is remote where `http` occurs anywhere in it; every other
/// reference is a path in the file system.
pub open spec fn is_remote(reference: Seq<char>) -> bool {
    has_substring(reference, remote_marker())
}

/// Whether `s` stands between two double quotes or between two single quotes.
pub open spec fn is_quoted(s: Seq<char>) -> bool {
    s.len() >= 2 && s.first() == s.last() && (s.first() == '"' || s.first() == '\'')
}

/// `s` without the one pair of quotes around it, if there is one.
pub open spec fn unquoted(s: Seq<char>) -> Seq<char> {
    if is_quoted(s) {
        s.subrange(1, s.len() - 1)
    } else {
        s
    }
}

/// What is to be done for `reference`, given whether its unquoted text is a
/// valid URL.  Only a remote reference is unquoted and validated.
pub open spec fn request_for(reference: Seq<char>, valid: bool) -> Result<RequestView, Failure> {
    if is_remote(reference) {
        if valid {
            Ok(RequestView::Fetch(unquoted(reference)))
        } else {
            Err(Failure::InvalidIncludeUrl)
        }
    } else {
        Ok(RequestView::ReadFile(reference))
    }
}

/// Whether `result` is the outcome `expected`.
pub open spec fn is_outcome(
    result: Result<Request, Failure>,
    expected: Result<RequestView, Failure>,
) -> bool {
    match result {
        Ok(request) => expected == Ok::<RequestView, Failure>(request@),
        Err(failure) => expected == Err::<RequestView, Failure>(failure),
    }
}

/// Decides [`is_remote`].
pub fn is_remote_reference(reference: &str) -> (b: bool)
    ensures
        b == is_remote(reference@),
{
    let chars = to_chars(reference);
    let marker: [char; 4] = ['h', 't', 't', 'p'];
    assert(marker@ =~= remote_marker());
    contains(chars.as_slice(), marker.as_slice())
}

/// Removes the one pair of matching quotes around `url`, if there is one.
pub fn clean_url(url: &str) -> (r: String)
    ensures
        r@ == unquoted(url@),
{
    let chars = to_chars(url);
    let n = chars.len();
    if n >= 2 && chars[0] == chars[n - 1] && (chars[0] == '"' || chars[0] == '\'') {
        from_chars(slice_subrange(chars.as_slice(), 1, n - 1))
    } else {
        url.to_owned()
    }
}

/// The request for the remote source at `url`, which was found valid or not.
pub fn hosted_request(url: String, valid: bool) -> (r: Result<Request, Failure>)
    ensures
        match r {
            Ok(request) => valid && request@ == RequestView::Fetch(url@),
            Err(failure) => !valid && failure == Failure::InvalidIncludeUrl,
        },
{
    if valid {
        Ok(Request::Fetch(url))
    } else {
        Err(Failure::InvalidIncludeUrl)
    }
}

/// Decides how the text of `reference` is to be had.  A local reference is
/// read as it stands; a remote one is unquoted and must then be a valid URL.
pub fn resolve(reference: &str) -> (r: Result<Request, Failure>)
    ensures
        is_outcome(r, request_for(reference@, url_parses(unquoted(reference@)))),
{
    if is_remote_reference(reference) {
        let url = clean_url(reference);
        let valid = url::Url::parse(url.as_str()).is_ok();
        hosted_request(url, valid)
    } else {
        Ok(Request::ReadFile(reference.to_owned()))
    }
}

/// A model that holds nothing yet and has the root source `filename` still to
/// read.
pub fn begin_at(filename: &str) -> (b: Bakefile)
    ensures
        b@ == (BakefileView { includes: seq![filename@], ..empty_model() }),
{
    let mut b = Bakefile::new();
    let ghost before = b.includes.deep_view();
    b.includes.push(filename.to_owned());
    assert(b.includes.deep_view() =~= before.push(filename@));
    b
}

/// Takes the reference that was added last out of `bakefile` and says how its
/// text is to be had.  Returns `None`, and changes nothing, once no reference
/// is left: the model is then complete.
pub fn next_request(bakefile: &mut Bakefile) -> (r: Option<Result<Request, Failure>>)
    ensures
        old(bakefile)@.includes.len() == 0 ==> r is None && final(bakefile)@ == old(bakefile)@,
        old(bakefile)@.includes.len() > 0 ==> r is Some && final(bakefile)@ == (BakefileView {
            includes: old(bakefile)@.includes.drop_last(),
            ..old(bakefile)@
        }) && is_outcome(
            r->0,
            request_for(
                old(bakefile)@.includes.last(),
                url_parses(unquoted(old(bakefile)@.includes.last())),
            ),
        ),
{
    let ghost before = bakefile.includes.deep_view();
    match bakefile.includes.pop() {
        Some(reference) => {
            assert(bakefile.includes.deep_view() =~= before.drop_last());
            assert(before.last() == reference@);
            Some(resolve(reference.as_str()))
        },
        None => {
            assert(bakefile.includes.deep_view() =~= before);
            None
        },
    }
}

} // verus!
